use xon::config::{
    choose_config, startup_autostart, targets_settings, AppliedAutostart, AutostartAction, Config,
    ConfigWatcher, StoredConfig, SETTINGS_TEMPLATE,
};

fn config(font: &str) -> Config {
    Config { font: font.to_string(), ..Config::default() }
}

#[test]
fn default_settings() {
    let c = Config::default();
    assert_eq!(c.accelerator, "Alt+Space");
    assert!(!c.autostart);
    assert_eq!(c.font, "");
    assert_eq!(c.result_rows, 6);
    assert_eq!(c.theme, "auto");
    assert!(c.colors.accent.is_none() && c.colors.bg_raised.is_none());
    assert_eq!(Config::default_accelerator(), "Alt+Space");
    assert_eq!(Config::default_result_rows(), 6);
}

#[test]
fn the_template_says_what_the_defaults_are() {
    let v: serde_json::Value = json5::from_str(SETTINGS_TEMPLATE).unwrap();
    let c = Config::default();
    assert_eq!(v["accelerator"], c.accelerator.as_str());
    assert_eq!(v["autostart"], c.autostart);
    assert_eq!(v["font"], c.font.as_str());
    assert_eq!(v["resultRows"], c.result_rows);
    assert_eq!(v.as_object().unwrap().len(), 4);
}

#[test]
fn a_shortcut_that_does_not_parse_gives_way_to_the_default() {
    let c = Config { accelerator: "Ctrl+K".to_string(), ..Config::default() };
    assert_eq!(c.usable_accelerator(true), "Ctrl+K");
    assert_eq!(c.usable_accelerator(false), "Alt+Space");
}

#[test]
fn the_settings_file_comes_before_the_legacy_one() {
    let a = choose_config(StoredConfig::Parsed(config("A")), StoredConfig::Parsed(config("B")));
    assert_eq!((a.config.font.as_str(), a.migrate), ("A", false));
    let b = choose_config(StoredConfig::Missing, StoredConfig::Parsed(config("B")));
    assert_eq!((b.config.font.as_str(), b.migrate), ("B", true));
    let c = choose_config(StoredConfig::Malformed, StoredConfig::Parsed(config("B")));
    assert_eq!((c.config.font.as_str(), c.migrate), ("", false));
    let d = choose_config(StoredConfig::Missing, StoredConfig::Malformed);
    assert_eq!((d.config.result_rows, d.migrate), (6, true));
    let e = choose_config(StoredConfig::Missing, StoredConfig::Missing);
    assert_eq!((e.config.font.as_str(), e.migrate), ("", false));
}

#[test]
fn own_writes_set_nothing_off() {
    let mut w = ConfigWatcher::default();
    assert!(!w.is_own_write(""));
    assert_eq!(w.apply_settings("{}", Some(config("A"))).unwrap().font, "A");
    w.persist_settings("{}");
    assert!(w.is_own_write("{}"));
    assert!(w.apply_settings("{}", Some(config("A"))).is_none());
    assert_eq!(w.apply_settings("{ }", Some(config("B"))).unwrap().font, "B");
    assert!(w.apply_settings("{", None).is_none());
}

#[test]
fn only_the_settings_file_is_of_interest() {
    let paths = |list: &[&str]| list.iter().map(|s| s.to_string()).collect::<Vec<String>>();
    assert!(targets_settings(&paths(&["C:\\x\\apps.json", "C:\\x\\settings.json"])));
    assert!(!targets_settings(&paths(&["C:\\x\\settings.json.tmp"])));
    assert!(!targets_settings(&Vec::new()));
}

#[test]
fn autostart_is_applied_once() {
    let mut a = AppliedAutostart::new();
    assert_eq!(a.apply_autostart(true), Some(AutostartAction::Enable));
    a.settle(true, false);
    assert_eq!(a.apply_autostart(true), Some(AutostartAction::Enable));
    a.settle(true, true);
    assert_eq!(a.apply_autostart(true), None);
    assert_eq!(a.apply_autostart(false), Some(AutostartAction::Disable));
    a.settle(false, true);
    assert_eq!(a.apply_autostart(false), None);
}

#[test]
fn an_unwanted_registration_is_cleaned_up_at_startup() {
    assert_eq!(startup_autostart(true, true), Some(AutostartAction::Enable));
    assert_eq!(startup_autostart(true, false), Some(AutostartAction::Enable));
    assert_eq!(startup_autostart(false, true), Some(AutostartAction::Disable));
    assert_eq!(startup_autostart(false, false), None);
}

#[test]
fn legacy_settings_are_moved_over_once() {
    let first = choose_config(StoredConfig::Missing, StoredConfig::Parsed(config("B")));
    assert!(first.migrate);
    let second = choose_config(StoredConfig::Parsed(first.config), StoredConfig::Missing);
    assert_eq!((second.config.font.as_str(), second.migrate), ("B", false));
}
