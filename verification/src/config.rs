//! The launcher's settings: what they are, which file they come from, and what a change
//! of the file sets off.

use crate::text::{ends_with, text_eq, view_opt, views};
use vstd::prelude::*;

verus! {

/// The shortcut that wakes the launcher, where the settings give no other.
pub const DEFAULT_ACCELERATOR: &'static str = "Alt+Space";

/// The theme that follows the system.
pub const DEFAULT_THEME: &'static str = "auto";

/// How many results are shown, where the settings give no other number.
pub const DEFAULT_RESULT_ROWS: usize = 6;

/// The base colors that the settings can override, each as a CSS color; all other colors
/// are derived from these.
#[derive(Debug)]
pub struct ThemeColors {
    pub bg: Option<String>,
    pub bg_raised: Option<String>,
    pub text: Option<String>,
    pub text_head: Option<String>,
    pub muted: Option<String>,
    pub accent: Option<String>,
}

/// The launcher settings.
#[derive(Debug)]
pub struct Config {
    /// The global shortcut; read at startup only.
    pub accelerator: String,
    /// Whether the launcher starts at login.
    pub autostart: bool,
    /// The font of the interface; empty for the system's default.
    pub font: String,
    /// How many results are shown at most.
    pub result_rows: usize,
    /// The theme: one that follows the system, the light or the dark one.
    pub theme: String,
    /// The base colors that are overridden.
    pub colors: ThemeColors,
}

/// No color is overridden.
pub open spec fn no_colors(c: ThemeColors) -> bool {
    &&& c.bg is None
    &&& c.bg_raised is None
    &&& c.text is None
    &&& c.text_head is None
    &&& c.muted is None
    &&& c.accent is None
}

/// The settings are the default ones.
pub open spec fn is_default(c: Config) -> bool {
    &&& c.accelerator@ == DEFAULT_ACCELERATOR@
    &&& !c.autostart
    &&& c.font@.len() == 0
    &&& c.result_rows == DEFAULT_RESULT_ROWS
    &&& c.theme@ == DEFAULT_THEME@
    &&& no_colors(c.colors)
}

impl Default for ThemeColors {
    fn default() -> (r: Self)
        ensures
            no_colors(r),
    {
        ThemeColors {
            bg: None,
            bg_raised: None,
            text: None,
            text_head: None,
            muted: None,
            accent: None,
        }
    }
}

impl Default for Config {
    fn default() -> (r: Self)
        ensures
            is_default(r),
    {
        Config {
            accelerator: Config::default_accelerator(),
            autostart: false,
            font: String::new(),
            result_rows: Config::default_result_rows(),
            theme: Config::default_theme(),
            colors: ThemeColors::default(),
        }
    }
}

impl Config {
    pub fn default_accelerator() -> (r: String)
        ensures
            r@ == DEFAULT_ACCELERATOR@,
    {
        DEFAULT_ACCELERATOR.to_owned()
    }

    pub fn default_result_rows() -> (r: usize)
        ensures
            r == DEFAULT_RESULT_ROWS,
    {
        DEFAULT_RESULT_ROWS
    }

    pub fn default_theme() -> (r: String)
        ensures
            r@ == DEFAULT_THEME@,
    {
        DEFAULT_THEME.to_owned()
    }

    /// The shortcut to register: that of the settings where it `parses`, else the default.
    pub fn usable_accelerator(&self, parses: bool) -> (r: String)
        ensures
            r@ == if parses {
                self.accelerator@
            } else {
                DEFAULT_ACCELERATOR@
            },
    {
        if parses {
            self.accelerator.clone()
        } else {
            Config::default_accelerator()
        }
    }
}

/// What was found where a settings file is expected.
#[derive(Debug)]
pub enum StoredConfig {
    /// There is no text to read.
    Missing,
    /// There is a text, but it does not parse.
    Malformed,
    /// There are settings.
    Parsed(Config),
}

/// The settings to go by, and whether they have to be moved over from the legacy file.
#[derive(Debug)]
pub struct LoadedConfig {
    pub config: Config,
    pub migrate: bool,
}

/// The settings are those that were found, or the default ones where they did not parse.
pub open spec fn taken_from(c: Config, stored: StoredConfig) -> bool {
    match stored {
        StoredConfig::Parsed(p) => c == p,
        _ => is_default(c),
    }
}

/// `loaded` is what the two files come to: the settings file where there is one, else the
/// legacy file, whose settings then have to be moved over.
pub open spec fn loads(settings: StoredConfig, legacy: StoredConfig, loaded: LoadedConfig) -> bool {
    &&& loaded.migrate == (settings is Missing && !(legacy is Missing))
    &&& !(settings is Missing) ==> taken_from(loaded.config, settings)
    &&& settings is Missing ==> taken_from(loaded.config, legacy)
}

/// What the two files hold after a load: settings that had to be moved over stand in the
/// settings file, and the legacy file is gone.
pub open spec fn stored_after(
    settings: StoredConfig,
    legacy: StoredConfig,
    loaded: LoadedConfig,
) -> (StoredConfig, StoredConfig) {
    if loaded.migrate {
        (StoredConfig::Parsed(loaded.config), StoredConfig::Missing)
    } else {
        (settings, legacy)
    }
}

/// The two settings say the same in every field.
pub open spec fn same_settings(a: Config, b: Config) -> bool {
    &&& a.accelerator@ == b.accelerator@
    &&& a.autostart == b.autostart
    &&& a.font@ == b.font@
    &&& a.result_rows == b.result_rows
    &&& a.theme@ == b.theme@
    &&& view_opt(a.colors.bg) == view_opt(b.colors.bg)
    &&& view_opt(a.colors.bg_raised) == view_opt(b.colors.bg_raised)
    &&& view_opt(a.colors.text) == view_opt(b.colors.text)
    &&& view_opt(a.colors.text_head) == view_opt(b.colors.text_head)
    &&& view_opt(a.colors.muted) == view_opt(b.colors.muted)
    &&& view_opt(a.colors.accent) == view_opt(b.colors.accent)
}

/// Decides which settings to go by. A settings file that is there counts, even where it
/// does not parse; only without one is the legacy file looked at, and then its settings
/// are moved over, once.
pub fn choose_config(settings: StoredConfig, legacy: StoredConfig) -> (r: LoadedConfig)
    ensures
        loads(settings, legacy, r),
{
    match settings {
        StoredConfig::Parsed(config) => LoadedConfig { config, migrate: false },
        StoredConfig::Malformed => LoadedConfig { config: Config::default(), migrate: false },
        StoredConfig::Missing => match legacy {
            StoredConfig::Parsed(config) => LoadedConfig { config, migrate: true },
            StoredConfig::Malformed => LoadedConfig { config: Config::default(), migrate: true },
            StoredConfig::Missing => LoadedConfig { config: Config::default(), migrate: false },
        },
    }
}

/// The settings file that is written where there is none yet, with a comment on each
/// field.
pub const SETTINGS_TEMPLATE: &'static str = r#"{
  // 全局唤醒快捷键，改后需重启生效（只在启动时注册）
  "accelerator": "Alt+Space",
  // 开机自启：改后立即生效（写入/删除系统自启项）
  "autostart": false,
  // 界面字体：系统已安装字体名，改后立即生效；留空 = 系统默认字体
  "font": "",
  // 列表最大候选行数：改后立即生效（窗口高度随之自适应）
  "resultRows": 6
}"#;

/// Remembers the settings text that the launcher itself wrote last, to tell the
/// notification of that write from one of the user's.
#[derive(Debug)]
pub struct ConfigWatcher {
    pub own_write: Option<String>,
}

/// What a notification sets off: the new settings, unless the text is the launcher's own
/// write or does not parse.
pub open spec fn settings_update(
    own_write: Option<Seq<char>>,
    text: Seq<char>,
    parsed: Option<Config>,
) -> Option<Config> {
    if own_write == Some(text) {
        None
    } else {
        parsed
    }
}

impl Default for ConfigWatcher {
    fn default() -> (r: Self)
        ensures
            r.own_write is None,
    {
        ConfigWatcher { own_write: None }
    }
}

impl ConfigWatcher {
    /// Remembers a text that is about to be written.
    pub fn persist_settings(&mut self, text: &str)
        ensures
            view_opt(final(self).own_write) == Some(text@),
    {
        self.own_write = Some(text.to_owned());
    }

    /// Whether the text is the launcher's own write.
    pub fn is_own_write(&self, text: &str) -> (r: bool)
        ensures
            r == (view_opt(self.own_write) == Some(text@)),
    {
        match &self.own_write {
            Some(own) => text_eq(own.as_str(), text),
            None => false,
        }
    }

    /// What to do on a notification, where `text` is what the file holds now and `parsed`
    /// the settings that it parses to.
    pub fn apply_settings(&self, text: &str, parsed: Option<Config>) -> (r: Option<Config>)
        ensures
            r == settings_update(view_opt(self.own_write), text@, parsed),
    {
        if self.is_own_write(text) {
            None
        } else {
            parsed
        }
    }
}

/// One of the paths is that of the settings file.
pub open spec fn names_settings(paths: Seq<Seq<char>>) -> bool {
    exists|i: int| 0 <= i < paths.len() && "settings.json"@.is_suffix_of(#[trigger] paths[i])
}

/// Whether a change to `paths` is one to the settings file.
pub fn targets_settings(paths: &Vec<String>) -> (r: bool)
    ensures
        r == names_settings(views(paths@)),
{
    let mut i: usize = 0;
    while i < paths.len()
        invariant
            i <= paths@.len(),
            forall|j: int|
                0 <= j < i ==> !"settings.json"@.is_suffix_of(#[trigger] views(paths@)[j]),
        decreases paths.len() - i,
    {
        assert(views(paths@)[i as int] == paths@[i as int]@);
        if ends_with(paths[i].as_str(), "settings.json") {
            return true;
        }
        i += 1;
    }
    false
}

/// What to do about the registration to start at login.
#[derive(Clone, Copy, PartialEq, Eq, Structural, Debug)]
pub enum AutostartAction {
    Enable,
    Disable,
}

/// The action that brings about `want`.
pub open spec fn action_for(want: bool) -> AutostartAction {
    if want {
        AutostartAction::Enable
    } else {
        AutostartAction::Disable
    }
}

/// What it takes to bring about `want`, where `applied` is what was brought about last.
pub open spec fn autostart_step(applied: Option<bool>, want: bool) -> Option<AutostartAction> {
    if applied == Some(want) {
        None
    } else {
        Some(action_for(want))
    }
}

/// What was brought about last, once the action for `want` went well or not.
pub open spec fn autostart_settled(applied: Option<bool>, want: bool, succeeded: bool) -> Option<
    bool,
> {
    if succeeded {
        Some(want)
    } else {
        applied
    }
}

/// The last value of the autostart setting that the system was brought in line with.
#[derive(Clone, Copy, PartialEq, Eq, Structural, Debug)]
pub struct AppliedAutostart {
    pub applied: Option<bool>,
}

impl AppliedAutostart {
    pub fn new() -> (r: Self)
        ensures
            r.applied is None,
    {
        AppliedAutostart { applied: None }
    }

    /// What it takes to bring the system in line with the setting: nothing where that was
    /// done already.
    pub fn apply_autostart(&self, want: bool) -> (r: Option<AutostartAction>)
        ensures
            r == autostart_step(self.applied, want),
    {
        match self.applied {
            Some(v) => if v == want {
                return None;
            },
            None => {},
        }
        if want {
            Some(AutostartAction::Enable)
        } else {
            Some(AutostartAction::Disable)
        }
    }

    /// Takes in how the action went: only a success is remembered.
    pub fn settle(&mut self, want: bool, succeeded: bool)
        ensures
            final(self).applied == autostart_settled(old(self).applied, want, succeeded),
    {
        if succeeded {
            self.applied = Some(want);
        }
    }
}

/// What to do about the registration at startup: enable it where it is wanted, and clean
/// up one that is there unwanted.
pub fn startup_autostart(want: bool, enabled: bool) -> (r: Option<AutostartAction>)
    ensures
        r == if want {
            Some(AutostartAction::Enable)
        } else if enabled {
            Some(AutostartAction::Disable)
        } else {
            None
        },
{
    if want {
        Some(AutostartAction::Enable)
    } else if enabled {
        Some(AutostartAction::Disable)
    } else {
        None
    }
}

/// The launcher's own write of the settings sets nothing off, whatever it parses to.
pub proof fn law_own_write_is_dropped(text: Seq<char>, parsed: Option<Config>)
    ensures
        settings_update(Some(text), text, parsed) is None,
{
}

/// Any other text that parses gets through.
pub proof fn law_foreign_write_gets_through(
    own_write: Option<Seq<char>>,
    text: Seq<char>,
    parsed: Option<Config>,
)
    requires
        own_write != Some(text),
    ensures
        settings_update(own_write, text, parsed) == parsed,
{
}

/// A setting that the system was brought in line with is not applied again; one whose
/// action failed is tried again.
pub proof fn law_autostart_is_applied_once(applied: Option<bool>, want: bool)
    ensures
        autostart_step(autostart_settled(applied, want, true), want) is None,
        autostart_step(autostart_settled(applied, want, true), !want) == Some(action_for(!want)),
        autostart_step(autostart_settled(applied, want, false), want) == autostart_step(applied, want),
{
}

/// Settings are moved over once: a second load gives the same settings as the first and has
/// nothing to move, whatever the files held at first. What was moved over is taken to read
/// back as it was written.
pub proof fn law_settings_are_moved_over_once(
    settings: StoredConfig,
    legacy: StoredConfig,
    first: LoadedConfig,
    second: LoadedConfig,
)
    requires
        loads(settings, legacy, first),
        loads(
            stored_after(settings, legacy, first).0,
            stored_after(settings, legacy, first).1,
            second,
        ),
    ensures
        !second.migrate,
        same_settings(first.config, second.config),
{
    assert(is_default(first.config) && is_default(second.config) ==> first.config.font@
        =~= second.config.font@);
}

/// Settings of the legacy file are not lost: they are what the first load gives, and what
/// the settings file holds afterwards.
pub proof fn law_legacy_settings_survive(config: Config, first: LoadedConfig)
    requires
        loads(StoredConfig::Missing, StoredConfig::Parsed(config), first),
    ensures
        first.migrate,
        first.config == config,
        stored_after(StoredConfig::Missing, StoredConfig::Parsed(config), first) == (
            StoredConfig::Parsed(config),
            StoredConfig::Missing,
        ),
{
}

/// What the default settings say.
pub proof fn law_default_settings(c: Config)
    ensures
        is_default(c) <==> c.accelerator@ == "Alt+Space"@ && !c.autostart && c.font@.len() == 0
            && c.result_rows == 6 && c.theme@ == "auto"@ && c.colors.bg is None
            && c.colors.bg_raised is None && c.colors.text is None && c.colors.text_head is None
            && c.colors.muted is None && c.colors.accent is None,
{
}

/// A settings file that is there decides: its settings where it parses, the default ones
/// where it does not, and nothing is moved over, whatever the legacy file holds.
pub proof fn law_settings_file_decides(
    settings: StoredConfig,
    legacy: StoredConfig,
    loaded: LoadedConfig,
)
    requires
        loads(settings, legacy, loaded),
    ensures
        settings matches StoredConfig::Parsed(c) ==> loaded.config == c && !loaded.migrate,
        settings is Malformed ==> is_default(loaded.config) && !loaded.migrate,
        settings is Missing && legacy is Missing ==> is_default(loaded.config) && !loaded.migrate,
        settings is Missing && legacy is Malformed ==> is_default(loaded.config) && loaded.migrate,
        settings is Missing ==> (legacy matches StoredConfig::Parsed(c) ==> loaded.config == c
            && loaded.migrate),
{
}

/// A change is one to the settings file where a path is something with `settings.json` at
/// its end.
pub proof fn law_settings_file_is_recognized(paths: Seq<Seq<char>>)
    ensures
        names_settings(paths) <==> exists|i: int, head: Seq<char>|
            0 <= i < paths.len() && #[trigger] paths[i] == #[trigger] (head + "settings.json"@),
{
    let tail = "settings.json"@;
    if names_settings(paths) {
        let i = choose|i: int| 0 <= i < paths.len() && tail.is_suffix_of(#[trigger] paths[i]);
        let p = paths[i];
        let head = p.take(p.len() - tail.len());
        assert(p =~= head + p.subrange(p.len() - tail.len(), p.len() as int));
        assert(paths[i] == head + tail);
    }
    if exists|i: int, head: Seq<char>|
        0 <= i < paths.len() && #[trigger] paths[i] == #[trigger] (head + tail) {
        let (i, head) = choose|i: int, head: Seq<char>|
            0 <= i < paths.len() && #[trigger] paths[i] == #[trigger] (head + tail);
        assert(paths[i].subrange(paths[i].len() - tail.len(), paths[i].len() as int) =~= tail);
        assert(tail.is_suffix_of(paths[i]));
    }
}

/// What a wish to start at login takes: nothing where it was brought about last, else
/// the registration or its removal; and only what went well counts as brought about.
pub proof fn law_autostart_steps(applied: Option<bool>, want: bool)
    ensures
        applied == Some(want) ==> autostart_step(applied, want) is None,
        applied != Some(true) ==> autostart_step(applied, true) == Some(AutostartAction::Enable),
        applied != Some(false) ==> autostart_step(applied, false) == Some(AutostartAction::Disable),
        autostart_settled(applied, want, true) == Some(want),
        autostart_settled(applied, want, false) == applied,
{
}

} // verus!
