//! The launcher index: how it is built from its sources, and when it is built anew.
//!
//! The sources are, in order: the shortcuts of the start menu, the portable apps, the
//! built-in system entries, the store apps, and the commands on the search path.

use crate::commands::{
    apply_commands, command_table, law_commands_add_only_new_names, law_commands_keep_rows,
    law_table_row_has_each_alias, merged_all, resolved, same_but_more_aliases, stands_for,
    CommandHost, Host,
};
use crate::entry::{copy_apps, rows, AppInfo, Row};
use crate::launch::{plan, system_uri, Plan};
use crate::portable::{
    portable_apps, portable_rows, probed, PortableManifest, PortableProbe, Probed, Registered,
};
use crate::shortcuts::{found, menu_rows, start_menu_apps, Found, Shortcut};
use crate::store::{
    enumerate_store_apps, items_of, launch_path, law_launch_path_round_trip, packaged, selected,
    sorted_by_name, store_path, Item, Packaged, ShellItem, StoreApp, LAUNCH_PREFIX,
};
use crate::system::{
    builtin_system_features, features, law_uris_are_distinct_system_uris, SystemFeature,
};
use crate::text::{
    holds_text, is_white_space, law_small_letters, law_trimmed, lowered, to_lowercase, trim, trimmed,
    views,
};
use crate::winpath::{
    extension_is, extension_of, has_extension, law_extension_in_any_case, law_missing_extension,
    law_parent_before_last_separator, parent, parent_of, paths_equal, same_path,
};
use vstd::prelude::*;

verus! {

/// The key by which two names are taken for the same: without the white space around
/// them, in small letters.
pub open spec fn name_key(name: Seq<char>) -> Seq<char> {
    lowered(trimmed(name))
}

/// The key by which two names are taken for the same.
pub fn index_name_key(name: &str) -> (r: String)
    ensures
        r@ == name_key(name@),
{
    to_lowercase(trim(name).as_str())
}

/// The name keys of a list of rows.
pub open spec fn row_keys(list: Seq<Row>) -> Seq<Seq<char>> {
    Seq::new(list.len(), |i: int| name_key(list[i].name))
}

/// Some row has this name key.
pub open spec fn has_key(list: Seq<Row>, key: Seq<char>) -> bool {
    exists|i: int| 0 <= i < list.len() && name_key((#[trigger] list[i]).name) == key
}

/// The row for a system entry.
pub open spec fn system_row(name: Seq<char>, uri: Seq<char>) -> Row {
    Row {
        name,
        comment: Some("系统"@),
        launch_path: uri,
        target_path: uri,
        icon: None,
        aliases: Seq::empty(),
    }
}

/// The rows of the built-in system entries.
pub open spec fn system_rows() -> Seq<Row> {
    Seq::new(features().len(), |i: int| system_row(features()[i].0, features()[i].1))
}

/// The row for a store app.
pub open spec fn store_row(app: Packaged) -> Row {
    Row {
        name: app.name,
        comment: Some("商店应用"@),
        launch_path: LAUNCH_PREFIX@ + app.aumid,
        target_path: LAUNCH_PREFIX@ + app.aumid,
        icon: None,
        aliases: Seq::empty(),
    }
}

/// The rows of the store apps, but for those that the start menu shows by the same name.
pub open spec fn store_rows(menu: Seq<Row>, apps: Seq<Packaged>) -> Seq<Row>
    decreases apps.len(),
{
    if apps.len() == 0 {
        Seq::empty()
    } else {
        let before = store_rows(menu, apps.drop_last());
        if has_key(menu, name_key(apps.last().name)) {
            before
        } else {
            before.push(store_row(apps.last()))
        }
    }
}

/// The entry for a system feature.
fn system_app(f: &SystemFeature) -> (r: AppInfo)
    ensures
        r@ == system_row(f.name@, f.uri@),
{
    let aliases: Vec<String> = Vec::new();
    assert(views(aliases@) =~= Seq::empty());
    AppInfo {
        name: f.name.to_owned(),
        comment: Some("系统".to_owned()),
        launch_path: f.uri.to_owned(),
        target_path: f.uri.to_owned(),
        icon: None,
        aliases,
    }
}

/// The entry for a store app.
fn store_app(app: &StoreApp) -> (r: AppInfo)
    ensures
        r@ == store_row(app@),
{
    let aliases: Vec<String> = Vec::new();
    assert(views(aliases@) =~= Seq::empty());
    let path = launch_path(app.aumid.as_str());
    AppInfo {
        name: app.name.clone(),
        comment: Some("商店应用".to_owned()),
        launch_path: path.clone(),
        target_path: path,
        icon: None,
        aliases,
    }
}

/// The name keys of a list of entries.
pub fn keys_of(apps: &Vec<AppInfo>) -> (r: Vec<String>)
    ensures
        views(r@) == row_keys(rows(apps@)),
{
    let mut keys: Vec<String> = Vec::new();
    let mut i: usize = 0;
    while i < apps.len()
        invariant
            i <= apps@.len(),
            keys@.len() == i,
            forall|j: int| 0 <= j < i ==> (#[trigger] keys@[j])@ == name_key(apps@[j].name@),
        decreases apps.len() - i,
    {
        keys.push(index_name_key(apps[i].name.as_str()));
        i += 1;
    }
    assert(views(keys@) =~= row_keys(rows(apps@)));
    keys
}

/// What an index is built from: the shortcuts that the scan of the start menu found, the
/// registered portable apps, the items of the shell's folder of all apps, and where
/// commands are looked for.
#[derive(Debug)]
pub struct Sources {
    pub shortcuts: Vec<Shortcut>,
    pub portables: Vec<PortableProbe>,
    pub items: Vec<ShellItem>,
    pub host: CommandHost,
}

/// The rows before the commands are merged in.
pub open spec fn base_rows(shortcuts: Seq<Found>, portables: Seq<Probed>, items: Seq<Item>) -> Seq<
    Row,
> {
    let menu = menu_rows(shortcuts);
    menu + portable_rows(portables) + system_rows() + store_rows(
        menu,
        sorted_by_name(selected(items)),
    )
}

/// The rows of the index.
pub open spec fn index_rows(
    shortcuts: Seq<Found>,
    portables: Seq<Probed>,
    items: Seq<Item>,
    host: Host,
) -> Seq<Row> {
    merged_all(base_rows(shortcuts, portables, items), command_table(), host)
}

fn append_system(apps: &mut Vec<AppInfo>)
    ensures
        rows(final(apps)@) == rows(old(apps)@) + system_rows(),
{
    let table = builtin_system_features();
    let ghost start = rows(apps@);
    let ghost all = system_rows();
    let mut i: usize = 0;
    assert(rows(apps@) =~= start + all.take(0));
    while i < table.len()
        invariant
            table@.len() == features().len(),
            forall|j: int|
                0 <= j < table@.len() ==> ((#[trigger] table@[j]).name@, table@[j].uri@)
                    == features()[j],
            all == system_rows(),
            i <= table@.len(),
            rows(apps@) == start + all.take(i as int),
        decreases table.len() - i,
    {
        let ghost before = rows(apps@);
        let app = system_app(&table[i]);
        assert((table@[i as int].name@, table@[i as int].uri@) == features()[i as int]);
        assert(app@ == all[i as int]);
        apps.push(app);
        i += 1;
        assert(rows(apps@) =~= before.push(all[i - 1]));
        assert(rows(apps@) =~= start + all.take(i as int));
    }
    assert(all.take(all.len() as int) =~= all);
}

/// The rows of the store apps, but for those whose key is one of the start menu's.
pub open spec fn unshadowed(
    menu_keys: Seq<Seq<char>>,
    apps: Seq<Packaged>,
    app_keys: Seq<Seq<char>>,
) -> Seq<Row>
    decreases apps.len(),
{
    if apps.len() == 0 {
        Seq::empty()
    } else {
        let before = unshadowed(menu_keys, apps.drop_last(), app_keys.drop_last());
        if menu_keys.contains(app_keys.last()) {
            before
        } else {
            before.push(store_row(apps.last()))
        }
    }
}

/// The name keys of a list of store apps.
pub open spec fn app_keys(apps: Seq<Packaged>) -> Seq<Seq<char>> {
    Seq::new(apps.len(), |i: int| name_key(apps[i].name))
}

proof fn lemma_unshadowed(menu: Seq<Row>, apps: Seq<Packaged>)
    ensures
        unshadowed(row_keys(menu), apps, app_keys(apps)) == store_rows(menu, apps),
    decreases apps.len(),
{
    if apps.len() > 0 {
        let key = name_key(apps.last().name);
        lemma_unshadowed(menu, apps.drop_last());
        assert(app_keys(apps).drop_last() =~= app_keys(apps.drop_last()));
        assert(row_keys(menu).contains(key) == has_key(menu, key)) by {
            if row_keys(menu).contains(key) {
                let i = choose|i: int| 0 <= i < menu.len() && row_keys(menu)[i] == key;
                assert(name_key(menu[i].name) == key);
            }
            if has_key(menu, key) {
                let i = choose|i: int|
                    0 <= i < menu.len() && name_key((#[trigger] menu[i]).name) == key;
                assert(row_keys(menu)[i] == key);
            }
        }
    }
}

/// The entries of the store apps, but for those whose key is one of the start menu's.
pub fn store_entries(
    menu_keys: &Vec<String>,
    found: &Vec<StoreApp>,
    found_keys: &Vec<String>,
) -> (r: Vec<AppInfo>)
    requires
        found_keys@.len() == found@.len(),
    ensures
        rows(r@) == unshadowed(views(menu_keys@), packaged(found@), views(found_keys@)),
{
    let ghost all = packaged(found@);
    let ghost keys = views(found_keys@);
    let ghost menu = views(menu_keys@);
    let mut apps: Vec<AppInfo> = Vec::new();
    let mut i: usize = 0;
    assert(rows(apps@) =~= unshadowed(menu, all.take(0), keys.take(0)));
    while i < found.len()
        invariant
            found_keys@.len() == found@.len(),
            all == packaged(found@),
            keys == views(found_keys@),
            menu == views(menu_keys@),
            i <= found@.len(),
            rows(apps@) == unshadowed(menu, all.take(i as int), keys.take(i as int)),
        decreases found.len() - i,
    {
        let ghost before = rows(apps@);
        assert(all.take(i + 1).drop_last() =~= all.take(i as int));
        assert(keys.take(i + 1).drop_last() =~= keys.take(i as int));
        if !holds_text(menu_keys, found_keys[i].as_str()) {
            apps.push(store_app(&found[i]));
            assert(rows(apps@) =~= before.push(store_row(all[i as int])));
        }
        i += 1;
    }
    assert(all.take(all.len() as int) =~= all);
    assert(keys.take(keys.len() as int) =~= keys);
    apps
}

/// The name keys of a list of store apps.
fn store_keys(found: &Vec<StoreApp>) -> (r: Vec<String>)
    ensures
        r@.len() == found@.len(),
        views(r@) == app_keys(packaged(found@)),
{
    let mut keys: Vec<String> = Vec::new();
    let mut i: usize = 0;
    while i < found.len()
        invariant
            i <= found@.len(),
            keys@.len() == i,
            forall|j: int| 0 <= j < i ==> (#[trigger] keys@[j])@ == name_key(found@[j].name@),
        decreases found.len() - i,
    {
        keys.push(index_name_key(found[i].name.as_str()));
        i += 1;
    }
    assert(views(keys@) =~= app_keys(packaged(found@)));
    keys
}

/// Builds the index from its sources.
pub fn build_index(sources: &Sources) -> (r: Vec<AppInfo>)
    ensures
        rows(r@) == index_rows(
            found(sources.shortcuts@),
            probed(sources.portables@),
            items_of(sources.items@),
            sources.host@,
        ),
{
    let mut apps = start_menu_apps(&sources.shortcuts);
    let ghost menu = rows(apps@);
    let keys = keys_of(&apps);
    let mut portables = portable_apps(&sources.portables);
    let ghost extra = rows(portables@);
    apps.append(&mut portables);
    assert(rows(apps@) =~= menu + extra);
    append_system(&mut apps);
    let ghost listed = rows(apps@);
    let store = enumerate_store_apps(&sources.items);
    let mut entries = store_entries(&keys, &store, &store_keys(&store));
    proof {
        lemma_unshadowed(menu, packaged(store@));
    }
    let ghost more = rows(entries@);
    apps.append(&mut entries);
    assert(rows(apps@) =~= listed + more);
    apply_commands(&mut apps, &sources.host);
    apps
}

/// The index that the launcher searches. It is always a complete snapshot.
#[derive(Debug)]
pub struct Index {
    pub apps: Vec<AppInfo>,
}

impl View for Index {
    type V = Seq<Row>;

    open spec fn view(&self) -> Seq<Row> {
        rows(self.apps@)
    }
}

impl Default for Index {
    fn default() -> (r: Self)
        ensures
            r@ == Seq::<Row>::empty(),
    {
        let index = Index { apps: Vec::new() };
        assert(index@ =~= Seq::empty());
        index
    }
}

impl Index {
    /// Replaces the whole index.
    pub fn reload(&mut self, apps: Vec<AppInfo>)
        ensures
            final(self)@ == rows(apps@),
    {
        self.apps = apps;
    }

    /// A copy of all entries.
    pub fn scan_apps(&self) -> (r: Vec<AppInfo>)
        ensures
            rows(r@) == self@,
    {
        copy_apps(&self.apps)
    }

    /// The launch paths of all entries.
    pub fn launch_paths(&self) -> (r: Vec<String>)
        ensures
            views(r@) == Seq::new(self@.len(), |i: int| self@[i].launch_path),
    {
        let mut out: Vec<String> = Vec::new();
        let mut i: usize = 0;
        while i < self.apps.len()
            invariant
                i <= self.apps@.len(),
                out@.len() == i,
                forall|j: int| 0 <= j < i ==> out@[j]@ == self.apps@[j].launch_path@,
            decreases self.apps.len() - i,
        {
            out.push(self.apps[i].launch_path.clone());
            i += 1;
        }
        assert(views(out@) =~= Seq::new(self@.len(), |i: int| self@[i].launch_path));
        out
    }
}

/// One of the paths is a shortcut file.
pub open spec fn any_shortcut(paths: Seq<Seq<char>>) -> bool {
    exists|i: int| 0 <= i < paths.len() && has_extension(#[trigger] paths[i], "lnk"@)
}

/// One of the folders is `p`.
pub open spec fn among(dirs: Seq<Seq<char>>, p: Seq<char>) -> bool {
    exists|i: int| 0 <= i < dirs.len() && same_path(#[trigger] dirs[i], p)
}

/// One of the paths lies directly in one of the folders.
pub open spec fn any_inside(paths: Seq<Seq<char>>, dirs: Seq<Seq<char>>) -> bool {
    exists|i: int|
        0 <= i < paths.len() && (parent_of(#[trigger] paths[i]) matches Some(q) && among(dirs, q))
}

fn is_among(dirs: &Vec<String>, p: &str) -> (r: bool)
    ensures
        r == among(views(dirs@), p@),
{
    let mut i: usize = 0;
    while i < dirs.len()
        invariant
            i <= dirs@.len(),
            forall|j: int| 0 <= j < i ==> !same_path(#[trigger] views(dirs@)[j], p@),
        decreases dirs.len() - i,
    {
        if paths_equal(dirs[i].as_str(), p) {
            assert(same_path(views(dirs@)[i as int], p@));
            return true;
        }
        assert(views(dirs@)[i as int] == dirs@[i as int]@);
        i += 1;
    }
    false
}

/// Whether a change to `paths` calls for a new index: one of them is a shortcut, or lies
/// directly in a watched folder. The folder of a portable exe is watched without its
/// subfolders, to see the exe deleted or renamed.
pub fn index_change_relevant(paths: &Vec<String>, dirs: &Vec<String>) -> (r: bool)
    ensures
        r == (any_shortcut(views(paths@)) || any_inside(views(paths@), views(dirs@))),
{
    let ghost all = views(paths@);
    let mut i: usize = 0;
    while i < paths.len()
        invariant
            all == views(paths@),
            i <= paths@.len(),
            forall|j: int| 0 <= j < i ==> !has_extension(#[trigger] all[j], "lnk"@),
            forall|j: int|
                0 <= j < i ==> !(parent_of(#[trigger] all[j]) matches Some(q) && among(
                    views(dirs@),
                    q,
                )),
        decreases paths.len() - i,
    {
        let path = paths[i].as_str();
        assert(all[i as int] == path@);
        if extension_is(path, "lnk") {
            return true;
        }
        if let Some(q) = parent(path) {
            if is_among(dirs, q.as_str()) {
                return true;
            }
        }
        i += 1;
    }
    false
}

/// The folders of the registered portable exes, in the order of the manifest.
pub open spec fn folders_of(m: Seq<Registered>) -> Seq<Seq<char>>
    decreases m.len(),
{
    if m.len() == 0 {
        Seq::empty()
    } else {
        let before = folders_of(m.drop_last());
        match parent_of(m.last().path) {
            Some(q) => before.push(q),
            None => before,
        }
    }
}

/// The folders of the registered portable exes.
pub fn portable_dirs(m: &PortableManifest) -> (r: Vec<String>)
    ensures
        views(r@) == folders_of(m@),
{
    let ghost all = m@;
    let mut out: Vec<String> = Vec::new();
    let mut i: usize = 0;
    assert(views(out@) =~= folders_of(all.take(0)));
    while i < m.apps.len()
        invariant
            all == m@,
            i <= m.apps@.len(),
            views(out@) == folders_of(all.take(i as int)),
        decreases m.apps.len() - i,
    {
        let ghost before = views(out@);
        assert(all.take(i + 1).drop_last() =~= all.take(i as int));
        if let Some(q) = parent(m.apps[i].path.as_str()) {
            out.push(q);
            assert(views(out@) =~= before.push(q@));
        }
        i += 1;
    }
    assert(all.take(all.len() as int) =~= all);
    out
}

/// A folder to watch, with or without its subfolders.
#[derive(Debug)]
pub struct Watch {
    pub dir: String,
    pub recursive: bool,
}

/// The folders of a list of watches, with their modes.
pub open spec fn watched(list: Seq<Watch>) -> Seq<(Seq<char>, bool)> {
    Seq::new(list.len(), |i: int| (list[i].dir@, list[i].recursive))
}

/// One of the watched folders is `p`.
pub open spec fn watches(list: Seq<(Seq<char>, bool)>, p: Seq<char>) -> bool {
    exists|i: int| 0 <= i < list.len() && same_path((#[trigger] list[i]).0, p)
}

/// The watches with each of `dirs` behind them that is not watched yet.
pub open spec fn with_watches(
    list: Seq<(Seq<char>, bool)>,
    dirs: Seq<Seq<char>>,
    recursive: bool,
) -> Seq<(Seq<char>, bool)>
    decreases dirs.len(),
{
    if dirs.len() == 0 {
        list
    } else {
        let before = with_watches(list, dirs.drop_last(), recursive);
        if watches(before, dirs.last()) {
            before
        } else {
            before.push((dirs.last(), recursive))
        }
    }
}

fn is_watched(list: &Vec<Watch>, p: &str) -> (r: bool)
    ensures
        r == watches(watched(list@), p@),
{
    let mut i: usize = 0;
    while i < list.len()
        invariant
            i <= list@.len(),
            forall|j: int| 0 <= j < i ==> !same_path((#[trigger] watched(list@)[j]).0, p@),
        decreases list.len() - i,
    {
        if paths_equal(list[i].dir.as_str(), p) {
            assert(same_path(watched(list@)[i as int].0, p@));
            return true;
        }
        assert(watched(list@)[i as int].0 == list@[i as int].dir@);
        i += 1;
    }
    false
}

fn add_watches(list: &mut Vec<Watch>, dirs: &Vec<String>, recursive: bool)
    ensures
        watched(final(list)@) == with_watches(watched(old(list)@), views(dirs@), recursive),
{
    let ghost start = watched(list@);
    let ghost all = views(dirs@);
    let mut i: usize = 0;
    assert(with_watches(start, all.take(0), recursive) == start);
    while i < dirs.len()
        invariant
            all == views(dirs@),
            i <= dirs@.len(),
            watched(list@) == with_watches(start, all.take(i as int), recursive),
        decreases dirs.len() - i,
    {
        let ghost before = watched(list@);
        assert(all.take(i + 1).drop_last() =~= all.take(i as int));
        if !is_watched(list, dirs[i].as_str()) {
            list.push(Watch { dir: dirs[i].clone(), recursive });
            assert(watched(list@) =~= before.push((all[i as int], recursive)));
        }
        i += 1;
    }
    assert(all.take(all.len() as int) =~= all);
}

/// Which folders are watched for changes: the start-menu roots with their subfolders, and
/// the folders of portable exes without, each once, and not those that are roots.
pub fn watch_plan(roots: &Vec<String>, portable: &Vec<String>) -> (r: Vec<Watch>)
    ensures
        watched(r@) == with_watches(
            with_watches(Seq::empty(), views(roots@), true),
            views(portable@),
            false,
        ),
{
    let mut list: Vec<Watch> = Vec::new();
    assert(watched(list@) =~= Seq::empty());
    add_watches(&mut list, roots, true);
    add_watches(&mut list, portable, false);
    list
}

/// What can happen while notifications are being collapsed.
#[derive(Clone, Copy, PartialEq, Eq, Structural, Debug)]
pub enum DebounceEvent {
    /// A notification came.
    Notified,
    /// None came for the quiet window.
    Quiet,
    /// No more can come.
    Closed,
}

/// What to do next while notifications are being collapsed.
#[derive(Clone, Copy, PartialEq, Eq, Structural, Debug)]
pub enum DebounceAction {
    /// Wait for a notification, however long.
    Wait,
    /// Wait for a notification for the length of the quiet window.
    WaitQuiet,
    /// Fire once, then wait for a notification.
    Fire,
    /// Stop.
    Stop,
}

/// Collapses a stream of notifications into one call after a quiet window: an installer
/// writes its shortcuts in a burst, and the index is rebuilt once per burst.
#[derive(Debug)]
pub struct Debouncer {
    /// A burst has begun and the call for it is still owed.
    pub pending: bool,
}

/// Whether a call is owed afterwards, and what to do.
pub open spec fn debounced(pending: bool, event: DebounceEvent) -> (bool, DebounceAction) {
    match event {
        DebounceEvent::Notified => (true, DebounceAction::WaitQuiet),
        DebounceEvent::Quiet => if pending {
            (false, DebounceAction::Fire)
        } else {
            (false, DebounceAction::Wait)
        },
        DebounceEvent::Closed => if pending {
            (false, DebounceAction::Fire)
        } else {
            (false, DebounceAction::Stop)
        },
    }
}

impl Debouncer {
    pub fn new() -> (r: Self)
        ensures
            !r.pending,
    {
        Debouncer { pending: false }
    }

    /// Takes in what happened and says what to do next.
    pub fn step(&mut self, event: DebounceEvent) -> (r: DebounceAction)
        ensures
            (final(self).pending, r) == debounced(old(self).pending, event),
    {
        match event {
            DebounceEvent::Notified => {
                self.pending = true;
                DebounceAction::WaitQuiet
            },
            DebounceEvent::Quiet => {
                let owed = self.pending;
                self.pending = false;
                if owed {
                    DebounceAction::Fire
                } else {
                    DebounceAction::Wait
                }
            },
            DebounceEvent::Closed => {
                let owed = self.pending;
                self.pending = false;
                if owed {
                    DebounceAction::Fire
                } else {
                    DebounceAction::Stop
                }
            },
        }
    }
}

/// The index holds the rows of all its sources, in order, start menu first: each with its
/// name, comment, way of launching, target and icon, and at most with more aliases.
pub proof fn law_index_keeps_its_sources(
    shortcuts: Seq<Found>,
    portables: Seq<Probed>,
    items: Seq<Item>,
    host: Host,
    i: int,
)
    requires
        0 <= i < base_rows(shortcuts, portables, items).len(),
    ensures
        i < index_rows(shortcuts, portables, items, host).len(),
        same_but_more_aliases(
            base_rows(shortcuts, portables, items)[i],
            index_rows(shortcuts, portables, items, host)[i],
        ),
{
    law_commands_keep_rows(base_rows(shortcuts, portables, items), command_table(), host);
}

/// Each row of the start menu, each row of a portable app and each row of a store app that
/// the start menu does not show is in the index: no source hides what another holds.
pub proof fn law_every_source_row_is_indexed(
    shortcuts: Seq<Found>,
    portables: Seq<Probed>,
    items: Seq<Item>,
    host: Host,
    row: Row,
)
    requires
        menu_rows(shortcuts).contains(row) || portable_rows(portables).contains(row) || store_rows(
            menu_rows(shortcuts),
            sorted_by_name(selected(items)),
        ).contains(row),
    ensures
        exists|i: int|
            0 <= i < index_rows(shortcuts, portables, items, host).len() && same_but_more_aliases(
                row,
                #[trigger] index_rows(shortcuts, portables, items, host)[i],
            ),
{
    let menu = menu_rows(shortcuts);
    let portable = portable_rows(portables);
    let store = store_rows(menu, sorted_by_name(selected(items)));
    let base = base_rows(shortcuts, portables, items);
    let i = if menu.contains(row) {
        choose|i: int| 0 <= i < menu.len() && menu[i] == row
    } else if portable.contains(row) {
        menu.len() + choose|i: int| 0 <= i < portable.len() && portable[i] == row
    } else {
        menu.len() + portable.len() + system_rows().len() + choose|i: int|
            0 <= i < store.len() && store[i] == row
    };
    assert(base[i] == row);
    law_index_keeps_its_sources(shortcuts, portables, items, host, i);
}

/// Every system entry is in the index, whatever the other sources hold.
pub proof fn law_system_entries_are_indexed(
    shortcuts: Seq<Found>,
    portables: Seq<Probed>,
    items: Seq<Item>,
    host: Host,
    k: int,
)
    requires
        0 <= k < features().len(),
    ensures
        exists|i: int|
            0 <= i < index_rows(shortcuts, portables, items, host).len() && same_but_more_aliases(
                system_row(features()[k].0, features()[k].1),
                #[trigger] index_rows(shortcuts, portables, items, host)[i],
            ),
{
    let menu = menu_rows(shortcuts);
    let i = menu.len() + portable_rows(portables).len() + k;
    assert(base_rows(shortcuts, portables, items)[i] == system_rows()[k]);
    law_index_keeps_its_sources(shortcuts, portables, items, host, i);
}

/// No row of the store apps has the name key of a row of the start menu, and each stands
/// for a store app.
pub proof fn law_store_rows_do_not_repeat_the_menu(menu: Seq<Row>, apps: Seq<Packaged>)
    ensures
        forall|i: int|
            0 <= i < store_rows(menu, apps).len() ==> !has_key(
                menu,
                name_key((#[trigger] store_rows(menu, apps)[i]).name),
            ),
        forall|i: int|
            0 <= i < store_rows(menu, apps).len() ==> exists|k: int|
                0 <= k < apps.len() && #[trigger] store_rows(menu, apps)[i] == store_row(
                    #[trigger] apps[k],
                ),
    decreases apps.len(),
{
    if apps.len() > 0 {
        let head = apps.drop_last();
        let before = store_rows(menu, head);
        let all = store_rows(menu, apps);
        law_store_rows_do_not_repeat_the_menu(menu, head);
        assert forall|i: int| 0 <= i < all.len() implies exists|k: int|
            0 <= k < apps.len() && #[trigger] all[i] == store_row(#[trigger] apps[k]) by {
            if i < before.len() {
                assert(all[i] == before[i]);
                let k = choose|k: int|
                    0 <= k < head.len() && before[i] == store_row(#[trigger] head[k]);
                assert(apps[k] == head[k]);
            } else {
                assert(apps[apps.len() - 1] == apps.last());
            }
        }
        assert forall|i: int| 0 <= i < all.len() implies !has_key(
            menu,
            name_key((#[trigger] all[i]).name),
        ) by {
            if i < before.len() {
                assert(all[i] == before[i]);
            }
        }
    }
}

/// A store app whose name the start menu does not show has a row.
pub proof fn law_unshadowed_store_app_is_indexed(menu: Seq<Row>, apps: Seq<Packaged>, k: int)
    requires
        0 <= k < apps.len(),
        !has_key(menu, name_key(apps[k].name)),
    ensures
        store_rows(menu, apps).contains(store_row(apps[k])),
    decreases apps.len(),
{
    let head = apps.drop_last();
    let before = store_rows(menu, head);
    let all = store_rows(menu, apps);
    if k < head.len() {
        law_unshadowed_store_app_is_indexed(menu, head, k);
        let i = choose|i: int| 0 <= i < before.len() && before[i] == store_row(apps[k]);
        assert(all[i] == before[i]);
    } else {
        assert(all[all.len() - 1] == store_row(apps[k]));
    }
}

/// Launching the row of a store app activates that app, elevation asked for or not.
pub proof fn law_store_row_launches_its_app(app: Packaged, as_admin: bool, portable: bool)
    ensures
        plan(store_row(app).launch_path, as_admin, portable) == Plan::Store(app.aumid),
{
    law_launch_path_round_trip(app.aumid);
}

/// Launching the row of a system entry opens its URI, never elevated.
pub proof fn law_system_row_opens_plainly(k: int, as_admin: bool)
    requires
        0 <= k < features().len(),
    ensures
        plan(system_row(features()[k].0, features()[k].1).launch_path, as_admin, false)
            == Plan::Open(features()[k].1),
{
    let u = features()[k].1;
    law_uris_are_distinct_system_uris();
    reveal_strlit("ms-settings:");
    reveal_strlit("::{");
    reveal_strlit("store:");
    assert(system_uri(u));
    if store_path(u) {
        assert(u.subrange(0, 6)[0] == 's');
        if "ms-settings:"@.is_prefix_of(u) {
            assert(u.subrange(0, 12)[0] == 'm');
        } else {
            assert(u.subrange(0, 3)[0] == ':');
        }
    }
}

proof fn lemma_with_watches(list: Seq<(Seq<char>, bool)>, dirs: Seq<Seq<char>>, recursive: bool)
    ensures
        list.is_prefix_of(with_watches(list, dirs, recursive)),
        forall|k: int|
            0 <= k < dirs.len() ==> watches(
                with_watches(list, dirs, recursive),
                #[trigger] dirs[k],
            ),
        forall|i: int|
            list.len() <= i < with_watches(list, dirs, recursive).len() ==> (
            #[trigger] with_watches(list, dirs, recursive)[i]).1 == recursive,
        each_once(list) ==> each_once(with_watches(list, dirs, recursive)),
    decreases dirs.len(),
{
    let all = with_watches(list, dirs, recursive);
    if dirs.len() > 0 {
        let head = dirs.drop_last();
        let before = with_watches(list, head, recursive);
        lemma_with_watches(list, head, recursive);
        assert(list =~= all.subrange(0, list.len() as int)) by {
            assert forall|i: int| 0 <= i < list.len() implies list[i] == all[i] by {
                assert(list[i] == before.subrange(0, list.len() as int)[i]);
            }
        }
        assert forall|k: int| 0 <= k < dirs.len() implies watches(all, #[trigger] dirs[k]) by {
            if k < head.len() {
                assert(head[k] == dirs[k]);
            }
            if watches(before, dirs[k]) {
                let i = choose|i: int|
                    0 <= i < before.len() && same_path((#[trigger] before[i]).0, dirs[k]);
                assert(all[i] == before[i]);
            } else {
                assert(same_path(all[before.len() as int].0, dirs[k]));
            }
        }
    } else {
        assert(list =~= all.subrange(0, list.len() as int));
    }
}

/// No folder is watched twice.
pub open spec fn each_once(list: Seq<(Seq<char>, bool)>) -> bool {
    forall|i: int, j: int|
        0 <= i < j < list.len() ==> !same_path((#[trigger] list[i]).0, (#[trigger] list[j]).0)
}

/// The folders watched for changes: no folder twice; every root with its subfolders, every
/// folder of a portable exe with them or without.
pub proof fn law_watch_plan(roots: Seq<Seq<char>>, portable: Seq<Seq<char>>)
    ensures
        ({
            let plan = with_watches(with_watches(Seq::empty(), roots, true), portable, false);
            &&& each_once(plan)
            &&& forall|k: int|
                0 <= k < roots.len() ==> exists|i: int|
                    0 <= i < plan.len() && (#[trigger] plan[i]).1 && same_path(
                        plan[i].0,
                        #[trigger] roots[k],
                    )
            &&& forall|k: int| 0 <= k < portable.len() ==> watches(plan, #[trigger] portable[k])
        }),
{
    let first = with_watches(Seq::empty(), roots, true);
    let plan = with_watches(first, portable, false);
    lemma_with_watches(Seq::empty(), roots, true);
    lemma_with_watches(first, portable, false);
    assert forall|k: int| 0 <= k < roots.len() implies exists|i: int|
        0 <= i < plan.len() && (#[trigger] plan[i]).1 && same_path(plan[i].0, #[trigger] roots[k]) by {
        assert(watches(first, roots[k]));
        let i = choose|i: int|
            0 <= i < first.len() && same_path((#[trigger] first[i]).0, roots[k]);
        assert(plan.subrange(0, first.len() as int)[i] == first[i]);
        assert(plan[i].1);
    }
}

proof fn lemma_folders_of(m: Seq<Registered>, k: int)
    requires
        0 <= k < m.len(),
        parent_of(m[k].path) is Some,
    ensures
        folders_of(m).contains(parent_of(m[k].path)->0),
    decreases m.len(),
{
    let before = folders_of(m.drop_last());
    let all = folders_of(m);
    let q = parent_of(m[k].path)->0;
    if k < m.len() - 1 {
        lemma_folders_of(m.drop_last(), k);
        let i = choose|i: int| 0 <= i < before.len() && before[i] == q;
        assert(all[i] == q);
    } else {
        assert(all[all.len() - 1] == q);
    }
}

/// The folders of a list of watches.
pub open spec fn watched_dirs(list: Seq<(Seq<char>, bool)>) -> Seq<Seq<char>> {
    Seq::new(list.len(), |i: int| list[i].0)
}

/// Any change to a registered portable exe calls for a new index, whatever the roots are.
pub proof fn law_portable_change_is_noticed(roots: Seq<Seq<char>>, m: Seq<Registered>, k: int)
    requires
        0 <= k < m.len(),
        parent_of(m[k].path) is Some,
    ensures
        any_inside(
            seq![m[k].path],
            watched_dirs(
                with_watches(with_watches(Seq::empty(), roots, true), folders_of(m), false),
            ),
        ),
{
    let plan = with_watches(with_watches(Seq::empty(), roots, true), folders_of(m), false);
    let q = parent_of(m[k].path)->0;
    lemma_folders_of(m, k);
    law_watch_plan(roots, folders_of(m));
    let n = choose|n: int| 0 <= n < folders_of(m).len() && folders_of(m)[n] == q;
    assert(watches(plan, folders_of(m)[n]));
    let i = choose|i: int| 0 <= i < plan.len() && same_path((#[trigger] plan[i]).0, q);
    assert(same_path(watched_dirs(plan)[i], q));
    assert(seq![m[k].path][0] == m[k].path);
}

/// How often a stream of events fires, and whether a call is owed afterwards.
pub open spec fn fired(pending: bool, events: Seq<DebounceEvent>) -> (bool, nat)
    decreases events.len(),
{
    if events.len() == 0 {
        (pending, 0)
    } else {
        let before = fired(pending, events.drop_last());
        let (owed, action) = debounced(before.0, events.last());
        (
            owed,
            before.1 + if action is Fire {
                1nat
            } else {
                0
            },
        )
    }
}

/// A burst of notifications, however long, followed by a quiet window fires once.
pub proof fn law_burst_fires_once(n: nat)
    requires
        n > 0,
    ensures
        fired(false, Seq::new(n, |i: int| DebounceEvent::Notified).push(DebounceEvent::Quiet)) == (
            false,
            1nat,
        ),
{
    let burst = Seq::new(n, |i: int| DebounceEvent::Notified);
    lemma_burst(n);
    assert(burst.push(DebounceEvent::Quiet).drop_last() =~= burst);
}

proof fn lemma_burst(n: nat)
    ensures
        fired(false, Seq::new(n, |i: int| DebounceEvent::Notified)) == (n > 0, 0nat),
    decreases n,
{
    if n > 0 {
        let m = (n - 1) as nat;
        lemma_burst(m);
        assert(Seq::new(n, |i: int| DebounceEvent::Notified).drop_last() =~= Seq::new(
            m,
            |i: int| DebounceEvent::Notified,
        ));
    }
}

/// How many notifications a stream of events holds.
pub open spec fn notifications(events: Seq<DebounceEvent>) -> nat
    decreases events.len(),
{
    if events.len() == 0 {
        0
    } else {
        notifications(events.drop_last()) + if events.last() is Notified {
            1nat
        } else {
            0
        }
    }
}

/// Nothing fires without a notification, and no stream fires more often than it was
/// notified; a call still owed has its notification to itself.
pub proof fn law_no_fire_without_notification(events: Seq<DebounceEvent>)
    ensures
        fired(false, events).1 + if fired(false, events).0 {
            1nat
        } else {
            0
        } <= notifications(events),
    decreases events.len(),
{
    if events.len() > 0 {
        law_no_fire_without_notification(events.drop_last());
    }
}

/// No notification is lost: once one came, the next quiet window fires.
pub proof fn law_notification_is_served(pending: bool)
    ensures
        debounced(debounced(pending, DebounceEvent::Notified).0, DebounceEvent::Quiet) == (
            false,
            DebounceAction::Fire,
        ),
{
}

/// White space around a name plays no part in its key.
pub proof fn law_key_ignores_white_space_around(before: Seq<char>, name: Seq<char>, behind: Seq<char>)
    requires
        forall|i: int| 0 <= i < before.len() ==> is_white_space(#[trigger] before[i]),
        forall|i: int| 0 <= i < behind.len() ==> is_white_space(#[trigger] behind[i]),
        name.len() > 0,
        !is_white_space(name[0]),
        !is_white_space(name.last()),
    ensures
        name_key(before + name + behind) == name_key(name),
{
    lemma_trimmed_core(before, name, behind);
    lemma_trimmed_core(Seq::empty(), name, Seq::empty());
    assert(Seq::<char>::empty() + name + Seq::<char>::empty() =~= name);
}

proof fn lemma_trimmed_core(before: Seq<char>, name: Seq<char>, behind: Seq<char>)
    requires
        forall|i: int| 0 <= i < before.len() ==> is_white_space(#[trigger] before[i]),
        forall|i: int| 0 <= i < behind.len() ==> is_white_space(#[trigger] behind[i]),
        name.len() > 0,
        !is_white_space(name[0]),
        !is_white_space(name.last()),
    ensures
        trimmed(before + name + behind) == name,
{
    let s = before + name + behind;
    let a = before.len() as int;
    let b = a + name.len();
    law_trimmed(s);
    let (lo, hi) = choose|lo: int, hi: int|
        0 <= lo <= hi <= s.len() && trimmed(s) == #[trigger] s.subrange(lo, hi) && (forall|i: int|
            0 <= i < lo ==> is_white_space(#[trigger] s[i])) && (forall|i: int|
            hi <= i < s.len() ==> is_white_space(#[trigger] s[i]));
    assert(s[a] == name[0]);
    assert(s[b - 1] == name.last());
    if lo < a {
        assert(s[lo] == before[lo]);
        assert(trimmed(s)[0] == s[lo]);
    }
    if hi > b {
        assert(s[hi - 1] == behind[hi - 1 - b]);
        assert(trimmed(s).last() == s[hi - 1]);
    }
    assert(lo == a && hi == b);
    assert(s.subrange(a, b) =~= name);
}

/// Two names of ASCII and Han characters without white space around them have the same key
/// where they are the same, place by place, but for the case of ASCII letters, and only
/// there.
pub proof fn law_same_key_same_name(a: Seq<char>, b: Seq<char>)
    requires
        a.len() > 0,
        b.len() > 0,
        !is_white_space(a[0]) && !is_white_space(a.last()),
        !is_white_space(b[0]) && !is_white_space(b.last()),
        forall|i: int|
            0 <= i < a.len() ==> (#[trigger] a[i]) <= '\u{7f}' || ('\u{4e00}' <= a[i] && a[i]
                <= '\u{9fff}'),
        forall|i: int|
            0 <= i < b.len() ==> (#[trigger] b[i]) <= '\u{7f}' || ('\u{4e00}' <= b[i] && b[i]
                <= '\u{9fff}'),
    ensures
        name_key(a) == name_key(b) <==> (a.len() == b.len() && forall|i: int|
            0 <= i < a.len() ==> (#[trigger] a[i]) == b[i] || ('A' <= a[i] && a[i] <= 'Z'
                && b[i] as int == a[i] as int + 32) || ('A' <= b[i] && b[i] <= 'Z' && a[i] as int
                == b[i] as int + 32)),
{
    lemma_trimmed_core(Seq::empty(), a, Seq::empty());
    lemma_trimmed_core(Seq::empty(), b, Seq::empty());
    assert(Seq::<char>::empty() + a + Seq::<char>::empty() =~= a);
    assert(Seq::<char>::empty() + b + Seq::<char>::empty() =~= b);
    law_small_letters(a);
    law_small_letters(b);
    let la = lowered(a);
    let lb = lowered(b);
    if la == lb {
        assert forall|i: int| 0 <= i < a.len() implies (#[trigger] a[i]) == b[i] || ('A' <= a[i]
            && a[i] <= 'Z' && b[i] as int == a[i] as int + 32) || ('A' <= b[i] && b[i] <= 'Z'
            && a[i] as int == b[i] as int + 32) by {
            assert(la[i] == lb[i]);
        }
    }
    if a.len() == b.len() && (forall|i: int|
        0 <= i < a.len() ==> (#[trigger] a[i]) == b[i] || ('A' <= a[i] && a[i] <= 'Z'
            && b[i] as int == a[i] as int + 32) || ('A' <= b[i] && b[i] <= 'Z' && a[i] as int
            == b[i] as int + 32)) {
        assert forall|i: int| 0 <= i < a.len() implies la[i] == lb[i] by {
            assert(a[i] == a[i]);
            assert(la[i] as int == lb[i] as int);
        }
        assert(la =~= lb);
    }
}

/// The keys of a list of rows are those of their names, in order, and a list has a key where
/// it is among them.
pub proof fn law_keys_of_rows(list: Seq<Row>, key: Seq<char>)
    ensures
        row_keys(list) == list.map_values(|row: Row| name_key(row.name)),
        has_key(list, key) <==> row_keys(list).contains(key),
{
    assert(row_keys(list) =~= list.map_values(|row: Row| name_key(row.name)));
    if has_key(list, key) {
        let i = choose|i: int| 0 <= i < list.len() && name_key((#[trigger] list[i]).name) == key;
        assert(row_keys(list)[i] == key);
    }
    if row_keys(list).contains(key) {
        let i = choose|i: int| 0 <= i < list.len() && row_keys(list)[i] == key;
        assert(name_key(list[i].name) == key);
    }
}

/// What the row of a store app holds: its name, and its identifier behind the store prefix as
/// the way to launch it and as its target.
pub proof fn law_row_of_a_store_app(app: Packaged)
    ensures
        store_row(app).name == app.name,
        store_row(app).comment == Some("商店应用"@),
        store_row(app).launch_path == "store:"@ + app.aumid,
        store_row(app).target_path == "store:"@ + app.aumid,
        store_row(app).icon is None,
        store_row(app).aliases.len() == 0,
{
}

/// What the rows of the system entries hold: name and URI of each feature, in order.
pub proof fn law_rows_of_the_system_entries(k: int)
    requires
        0 <= k < features().len(),
    ensures
        system_rows().len() == features().len(),
        system_rows()[k].name == features()[k].0,
        system_rows()[k].comment == Some("系统"@),
        system_rows()[k].launch_path == features()[k].1,
        system_rows()[k].target_path == features()[k].1,
        system_rows()[k].icon is None,
        system_rows()[k].aliases.len() == 0,
{
}

/// One more store app adds its row at the end, unless a row of the start menu has its key.
pub proof fn law_one_more_store_app(menu: Seq<Row>, apps: Seq<Packaged>, app: Packaged)
    ensures
        store_rows(menu, Seq::empty()).len() == 0,
        row_keys(menu).contains(name_key(app.name)) ==> store_rows(menu, apps.push(app))
            == store_rows(menu, apps),
        !row_keys(menu).contains(name_key(app.name)) ==> store_rows(menu, apps.push(app))
            == store_rows(menu, apps) + seq![store_row(app)],
{
    law_keys_of_rows(menu, name_key(app.name));
    assert(apps.push(app).drop_last() =~= apps);
    let before = store_rows(menu, apps);
    assert(before.push(store_row(app)) =~= before + seq![store_row(app)]);
}

/// The same with keys that were made before.
pub proof fn law_one_more_store_key(
    menu_keys: Seq<Seq<char>>,
    apps: Seq<Packaged>,
    keys: Seq<Seq<char>>,
    app: Packaged,
    key: Seq<char>,
)
    requires
        keys.len() == apps.len(),
    ensures
        unshadowed(menu_keys, Seq::empty(), Seq::empty()).len() == 0,
        menu_keys.contains(key) ==> unshadowed(menu_keys, apps.push(app), keys.push(key))
            == unshadowed(menu_keys, apps, keys),
        !menu_keys.contains(key) ==> unshadowed(menu_keys, apps.push(app), keys.push(key))
            == unshadowed(menu_keys, apps, keys) + seq![store_row(app)],
{
    assert(apps.push(app).drop_last() =~= apps);
    assert(keys.push(key).drop_last() =~= keys);
    let before = unshadowed(menu_keys, apps, keys);
    assert(before.push(store_row(app)) =~= before + seq![store_row(app)]);
}

/// The sources stand one behind the other: start menu, portable apps, system entries, store
/// apps by name, and behind them the commands that got a row of their own.
pub proof fn law_order_of_the_sources(
    shortcuts: Seq<Found>,
    portables: Seq<Probed>,
    items: Seq<Item>,
    host: Host,
    i: int,
)
    requires
        0 <= i < index_rows(shortcuts, portables, items, host).len(),
    ensures
        ({
            let row = index_rows(shortcuts, portables, items, host)[i];
            let menu = menu_rows(shortcuts);
            let portable = portable_rows(portables);
            let store = store_rows(menu, sorted_by_name(selected(items)));
            let a = menu.len() as int;
            let b = a + portable.len();
            let c = b + features().len();
            let d = c + store.len();
            &&& i < a ==> same_but_more_aliases(menu[i], row)
            &&& a <= i < b ==> same_but_more_aliases(portable[i - a], row)
            &&& b <= i < c ==> same_but_more_aliases(system_rows()[i - b], row)
            &&& c <= i < d ==> same_but_more_aliases(store[i - c], row)
            &&& d <= i ==> exists|k: int|
                0 <= k < command_table().len() && row.name == (#[trigger] command_table()[k]).name
                    && row.comment == Some("系统命令"@) && resolved(command_table()[k].cmd, host)
                    == Some(row.launch_path) && row.target_path == row.launch_path
                    && row.icon is None
        }),
{
    let base = base_rows(shortcuts, portables, items);
    law_commands_keep_rows(base, command_table(), host);
    law_commands_add_only_new_names(base, command_table(), host);
    let row = index_rows(shortcuts, portables, items, host)[i];
    if i < base.len() {
        assert(same_but_more_aliases(base[i], row));
    } else {
        let k = choose|k: int|
            0 <= k < command_table().len() && stands_for(row, #[trigger] command_table()[k], host);
        assert(row.name == command_table()[k].name);
    }
}

/// A row keeps what it is found and launched by, and at most gains aliases.
pub proof fn law_same_but_more_aliases(a: Row, b: Row, i: int)
    requires
        same_but_more_aliases(a, b),
        0 <= i < a.aliases.len(),
    ensures
        a.name == b.name,
        a.comment == b.comment,
        a.launch_path == b.launch_path,
        a.target_path == b.target_path,
        a.icon == b.icon,
        i < b.aliases.len(),
        b.aliases[i] == a.aliases[i],
{
    assert(b.aliases.subrange(0, a.aliases.len() as int)[i] == a.aliases[i]);
}

/// In the index, the first row under the name of a command has each of the command's aliases,
/// character for character but for the case of ASCII letters.
pub proof fn law_index_finds_a_command_by_its_aliases(
    shortcuts: Seq<Found>,
    portables: Seq<Probed>,
    items: Seq<Item>,
    host: Host,
    k: int,
    m: int,
    r: int,
)
    requires
        0 <= k < command_table().len(),
        0 <= m < command_table()[k].aliases.len(),
        0 <= r < index_rows(shortcuts, portables, items, host).len(),
        name_key(index_rows(shortcuts, portables, items, host)[r].name) == name_key(
            command_table()[k].name,
        ),
        forall|j: int|
            0 <= j < r ==> name_key(
                (#[trigger] index_rows(shortcuts, portables, items, host)[j]).name,
            ) != name_key(command_table()[k].name),
    ensures
        ({
            let row = index_rows(shortcuts, portables, items, host)[r];
            let alias = command_table()[k].aliases[m];
            exists|a: int|
                0 <= a < row.aliases.len() && (#[trigger] row.aliases[a]).len() == alias.len()
                    && forall|i: int|
                    0 <= i < alias.len() ==> (#[trigger] row.aliases[a][i]) == alias[i] || ('A'
                        <= row.aliases[a][i] && row.aliases[a][i] <= 'Z' && alias[i] as int
                        == row.aliases[a][i] as int + 32) || ('A' <= alias[i] && alias[i] <= 'Z'
                        && row.aliases[a][i] as int == alias[i] as int + 32)
        }),
{
    let base = base_rows(shortcuts, portables, items);
    assert forall|j: int| 0 <= j < r implies name_key(
        (#[trigger] merged_all(base, command_table(), host)[j]).name,
    ) != name_key(command_table()[k].name) by {
        assert(index_rows(shortcuts, portables, items, host)[j] == merged_all(
            base,
            command_table(),
            host,
        )[j]);
    }
    law_table_row_has_each_alias(base, host, k, m, r);
}

/// A change to a file with the extension `lnk`, in whatever case of letters, calls for a new
/// index, and a change to others alone is not taken for one.
pub proof fn law_shortcut_changes(paths: Seq<Seq<char>>)
    ensures
        any_shortcut(paths) <==> exists|i: int|
            0 <= i < paths.len() && (extension_of(#[trigger] paths[i]) matches Some(e) && e.len()
                == 3 && (e[0] == 'l' || e[0] == 'L') && (e[1] == 'n' || e[1] == 'N') && (e[2] == 'k'
                || e[2] == 'K')),
{
    reveal_strlit("lnk");
    assert forall|i: int| 0 <= i < paths.len() implies (has_extension(#[trigger] paths[i], "lnk"@)
        <==> (extension_of(paths[i]) matches Some(e) && e.len() == 3 && (e[0] == 'l' || e[0] == 'L')
        && (e[1] == 'n' || e[1] == 'N') && (e[2] == 'k' || e[2] == 'K'))) by {
        match extension_of(paths[i]) {
            Some(e) => {
                law_extension_in_any_case(paths[i], e, "lnk"@);
                if e.len() == 3 {
                    assert(e[0] == e[0] && e[1] == e[1] && e[2] == e[2]);
                }
            },
            None => {
                law_missing_extension(paths[i], "lnk"@);
            },
        }
    }
}

/// A change directly in a watched folder calls for a new index: the folder `dirs[d]`, which
/// does not begin with two separators nor end in one, and a file of any name in it.
pub proof fn law_change_in_a_watched_folder(
    paths: Seq<Seq<char>>,
    dirs: Seq<Seq<char>>,
    i: int,
    d: int,
    name: Seq<char>,
)
    requires
        0 <= i < paths.len(),
        0 <= d < dirs.len(),
        dirs[d].len() > 2,
        !(dirs[d][0] == '\\' || dirs[d][0] == '/') || !(dirs[d][1] == '\\' || dirs[d][1] == '/'),
        dirs[d].last() != '\\' && dirs[d].last() != '/' && dirs[d].last() != '.',
        name.len() > 0,
        forall|j: int| 0 <= j < name.len() ==> (#[trigger] name[j]) != '\\' && name[j] != '/',
        name != seq!['.'],
        paths[i] == dirs[d] + seq!['\\'] + name,
    ensures
        any_inside(paths, dirs),
{
    let p = paths[i];
    let at = dirs[d].len() as int;
    assert forall|j: int| at < j < p.len() implies (#[trigger] p[j]) != '\\' && p[j] != '/' by {
        assert(p[j] == name[j - at - 1]);
    }
    assert(p[at - 1] == dirs[d].last());
    assert(p.skip(at + 1) =~= name);
    law_parent_before_last_separator(p, at);
    assert(p.take(at) =~= dirs[d]);
    assert(same_path(dirs[d], dirs[d]));
    assert(among(dirs, dirs[d]));
}

/// A change is noticed only where the folder of one of the paths is one of the folders.
pub proof fn law_change_elsewhere(paths: Seq<Seq<char>>, dirs: Seq<Seq<char>>)
    requires
        forall|i: int, d: int|
            #![trigger paths[i], dirs[d]]
            0 <= i < paths.len() && 0 <= d < dirs.len() && parent_of(paths[i]) is Some
                ==> !same_path(dirs[d], parent_of(paths[i])->0),
    ensures
        !any_inside(paths, dirs),
{
}

/// One more registered exe adds its folder at the end, where it has one.
pub proof fn law_one_more_folder(m: Seq<Registered>, e: Registered)
    ensures
        folders_of(Seq::empty()).len() == 0,
        parent_of(e.path) matches Some(q) ==> folders_of(m.push(e)) == folders_of(m) + seq![q],
        parent_of(e.path) is None ==> folders_of(m.push(e)) == folders_of(m),
{
    assert(m.push(e).drop_last() =~= m);
    if let Some(q) = parent_of(e.path) {
        assert(folders_of(m).push(q) =~= folders_of(m) + seq![q]);
    }
}

/// One more folder is watched in the given way, unless it is watched already.
pub proof fn law_one_more_watch(
    list: Seq<(Seq<char>, bool)>,
    dirs: Seq<Seq<char>>,
    dir: Seq<char>,
    recursive: bool,
)
    ensures
        with_watches(list, Seq::empty(), recursive) == list,
        (exists|i: int|
            0 <= i < with_watches(list, dirs, recursive).len() && same_path(
                (#[trigger] with_watches(list, dirs, recursive)[i]).0,
                dir,
            )) ==> with_watches(list, dirs.push(dir), recursive) == with_watches(
            list,
            dirs,
            recursive,
        ),
        (forall|i: int|
            0 <= i < with_watches(list, dirs, recursive).len() ==> !same_path(
                (#[trigger] with_watches(list, dirs, recursive)[i]).0,
                dir,
            )) ==> with_watches(list, dirs.push(dir), recursive) == with_watches(
            list,
            dirs,
            recursive,
        ) + seq![(dir, recursive)],
{
    assert(dirs.push(dir).drop_last() =~= dirs);
    let before = with_watches(list, dirs, recursive);
    assert(before.push((dir, recursive)) =~= before + seq![(dir, recursive)]);
}

/// A notification is owed a call and opens the quiet window; the end of the window, or of the
/// stream, pays what is owed and owes nothing then; without anything owed, the one waits on
/// and the other stops.
pub proof fn law_debounce_steps(pending: bool)
    ensures
        debounced(pending, DebounceEvent::Notified) == (true, DebounceAction::WaitQuiet),
        debounced(true, DebounceEvent::Quiet) == (false, DebounceAction::Fire),
        debounced(false, DebounceEvent::Quiet) == (false, DebounceAction::Wait),
        debounced(true, DebounceEvent::Closed) == (false, DebounceAction::Fire),
        debounced(false, DebounceEvent::Closed) == (false, DebounceAction::Stop),
{
}

} // verus!
