//! The tray menu and the launcher window.

use crate::portable::{file_stem, stem_or_path, PortableManifest, Registered};
use crate::text::{chars_of, starts_with, text_between, text_eq};
use crate::winpath::stem_of;
use vstd::prelude::*;

verus! {

/// The start of the menu id that removes a portable app; the path follows.
pub const REMOVE_PREFIX: &'static str = "remove-portable:";

/// A menu item: its id and what it shows.
#[derive(Debug)]
pub struct MenuEntry {
    pub id: String,
    pub label: String,
}

/// A part of the tray menu.
#[derive(Debug)]
pub enum TrayItem {
    Entry(MenuEntry),
    /// A submenu: what it shows, and its items.
    Submenu(String, Vec<MenuEntry>),
}

/// The texts of a part of the tray menu.
#[verifier::ext_equal]
pub enum Part {
    Entry(Seq<char>, Seq<char>),
    Submenu(Seq<char>, Seq<(Seq<char>, Seq<char>)>),
}

/// The ids and labels of a list of menu items.
pub open spec fn menu_texts(list: Seq<MenuEntry>) -> Seq<(Seq<char>, Seq<char>)> {
    Seq::new(list.len(), |i: int| (list[i].id@, list[i].label@))
}

impl View for TrayItem {
    type V = Part;

    open spec fn view(&self) -> Part {
        match *self {
            TrayItem::Entry(e) => Part::Entry(e.id@, e.label@),
            TrayItem::Submenu(label, items) => Part::Submenu(label@, menu_texts(items@)),
        }
    }
}

/// The parts of a menu.
pub open spec fn parts(menu: Seq<TrayItem>) -> Seq<Part> {
    Seq::new(menu.len(), |i: int| menu[i]@)
}

/// The item that removes a portable app: its id names the path, and it shows the alias or
/// the file stem.
pub open spec fn remove_item(e: Registered) -> (Seq<char>, Seq<char>) {
    (
        REMOVE_PREFIX@ + e.path,
        match e.name {
            Some(n) => n,
            None => stem_or_path(e.path),
        },
    )
}

/// The parts of the tray menu: the submenu of removals only where there are portable apps.
pub open spec fn menu_parts(m: Seq<Registered>) -> Seq<Part> {
    let add = Part::Entry("add-portable"@, "添加便携应用…"@);
    let tail = seq![
        Part::Entry("open-config"@, "打开配置文件…"@),
        Part::Entry("rescan"@, "重扫索引"@),
        Part::Entry("quit"@, "退出"@),
    ];
    if m.len() == 0 {
        seq![add] + tail
    } else {
        seq![
            add,
            Part::Submenu("移除便携应用"@, Seq::new(m.len(), |i: int| remove_item(m[i]))),
        ] + tail
    }
}

fn entry(id: &str, label: &str) -> (r: TrayItem)
    ensures
        r@ == Part::Entry(id@, label@),
{
    TrayItem::Entry(MenuEntry { id: id.to_owned(), label: label.to_owned() })
}

/// The tray menu, with the current portable apps as a submenu of removals.
pub fn build_tray_menu(m: &PortableManifest) -> (r: Vec<TrayItem>)
    ensures
        parts(r@) == menu_parts(m@),
{
    let mut menu: Vec<TrayItem> = Vec::new();
    menu.push(entry("add-portable", "添加便携应用…"));
    if m.apps.len() > 0 {
        let mut remove: Vec<MenuEntry> = Vec::new();
        let mut i: usize = 0;
        while i < m.apps.len()
            invariant
                i <= m.apps@.len(),
                remove@.len() == i,
                forall|j: int|
                    0 <= j < i ==> (remove@[j].id@, remove@[j].label@) == remove_item(
                        #[trigger] m@[j],
                    ),
            decreases m.apps.len() - i,
        {
            let e = &m.apps[i];
            let mut id = REMOVE_PREFIX.to_owned();
            id.append(e.path.as_str());
            let label = match &e.name {
                Some(n) => n.clone(),
                None => file_stem(e.path.as_str()),
            };
            assert(m@[i as int] == e@);
            remove.push(MenuEntry { id, label });
            i += 1;
        }
        assert(menu_texts(remove@) =~= Seq::new(m@.len(), |i: int| remove_item(m@[i])));
        menu.push(TrayItem::Submenu("移除便携应用".to_owned(), remove));
    }
    menu.push(entry("open-config", "打开配置文件…"));
    menu.push(entry("rescan", "重扫索引"));
    menu.push(entry("quit", "退出"));
    assert(parts(menu@) =~= menu_parts(m@));
    menu
}

/// What a menu item does.
#[derive(Debug)]
pub enum TrayCommand {
    AddPortable,
    OpenConfig,
    Rescan,
    Quit,
    /// Remove the portable app at this path.
    RemovePortable(String),
    /// Nothing.
    Ignore,
}

/// The texts of a tray command.
pub enum Action {
    AddPortable,
    OpenConfig,
    Rescan,
    Quit,
    RemovePortable(Seq<char>),
    Ignore,
}

impl View for TrayCommand {
    type V = Action;

    open spec fn view(&self) -> Action {
        match *self {
            TrayCommand::AddPortable => Action::AddPortable,
            TrayCommand::OpenConfig => Action::OpenConfig,
            TrayCommand::Rescan => Action::Rescan,
            TrayCommand::Quit => Action::Quit,
            TrayCommand::RemovePortable(p) => Action::RemovePortable(p@),
            TrayCommand::Ignore => Action::Ignore,
        }
    }
}

/// What the menu item with this id does.
pub open spec fn action_of(id: Seq<char>) -> Action {
    if id == "add-portable"@ {
        Action::AddPortable
    } else if id == "open-config"@ {
        Action::OpenConfig
    } else if id == "rescan"@ {
        Action::Rescan
    } else if id == "quit"@ {
        Action::Quit
    } else if REMOVE_PREFIX@.is_prefix_of(id) {
        Action::RemovePortable(id.skip(REMOVE_PREFIX@.len() as int))
    } else {
        Action::Ignore
    }
}

/// What the menu item with this id does.
pub fn tray_command(id: &str) -> (r: TrayCommand)
    ensures
        r@ == action_of(id@),
{
    if text_eq(id, "add-portable") {
        TrayCommand::AddPortable
    } else if text_eq(id, "open-config") {
        TrayCommand::OpenConfig
    } else if text_eq(id, "rescan") {
        TrayCommand::Rescan
    } else if text_eq(id, "quit") {
        TrayCommand::Quit
    } else if starts_with(id, REMOVE_PREFIX) {
        let chars = chars_of(id);
        let n: usize = chars_of(REMOVE_PREFIX).len();
        assert(chars@.subrange(n as int, chars@.len() as int) =~= chars@.skip(n as int));
        TrayCommand::RemovePortable(text_between(&chars, n, chars.len()))
    } else {
        TrayCommand::Ignore
    }
}

/// What waking the launcher does to its window.
#[derive(Clone, Copy, PartialEq, Eq, Structural, Debug)]
pub enum WindowAction {
    /// Hide it.
    Hide,
    /// Show and focus it, and tell it to start afresh.
    Summon,
}

/// What waking the launcher does: a visible window is hidden, a hidden one summoned.
pub fn toggle_window(visible: bool) -> (r: WindowAction)
    ensures
        r == if visible {
            WindowAction::Hide
        } else {
            WindowAction::Summon
        },
{
    if visible {
        WindowAction::Hide
    } else {
        WindowAction::Summon
    }
}

/// Choosing an item of the removal submenu removes exactly the app it stands for,
/// whatever its path is.
pub proof fn law_remove_item_names_its_app(e: Registered)
    ensures
        action_of(remove_item(e).0) == Action::RemovePortable(e.path),
{
    reveal_strlit("remove-portable:");
    reveal_strlit("add-portable");
    reveal_strlit("open-config");
    reveal_strlit("rescan");
    reveal_strlit("quit");
    let id = remove_item(e).0;
    assert(id.take(16) =~= REMOVE_PREFIX@);
    assert(id.subrange(0, 16) =~= REMOVE_PREFIX@);
    assert(id.skip(16) =~= e.path);
    assert(id.len() >= 16);
}

/// The tray menu: adding a portable app, removing one where there are any, the settings,
/// a new scan, and leaving, in this order.
pub proof fn law_tray_menu(m: Seq<Registered>)
    ensures
        ({
            let menu = menu_parts(m);
            let n = menu.len() as int;
            &&& n == if m.len() == 0 {
                4int
            } else {
                5
            }
            &&& menu[0] == Part::Entry("add-portable"@, "添加便携应用…"@)
            &&& menu[n - 3] == Part::Entry("open-config"@, "打开配置文件…"@)
            &&& menu[n - 2] == Part::Entry("rescan"@, "重扫索引"@)
            &&& menu[n - 1] == Part::Entry("quit"@, "退出"@)
            &&& m.len() > 0 ==> (menu[1] matches Part::Submenu(label, items) && label
                == "移除便携应用"@ && items.len() == m.len() && forall|i: int|
                0 <= i < m.len() ==> (#[trigger] items[i]).0 == "remove-portable:"@ + m[i].path && (
                m[i].name matches Some(shown) ==> items[i].1 == shown) && (m[i].name is None ==> (
                stem_of(m[i].path) matches Some(stem) ==> items[i].1 == stem)) && (m[i].name is None
                    && stem_of(m[i].path) is None ==> items[i].1 == m[i].path))
        }),
{
}

/// Each fixed item of the menu does its own thing, an id with the removal prefix removes the
/// path behind it, and any other id does nothing.
pub proof fn law_menu_ids(path: Seq<char>, other: Seq<char>)
    ensures
        action_of("add-portable"@) is AddPortable,
        action_of("open-config"@) is OpenConfig,
        action_of("rescan"@) is Rescan,
        action_of("quit"@) is Quit,
        action_of("remove-portable:"@ + path) == Action::RemovePortable(path),
        other != "add-portable"@ && other != "open-config"@ && other != "rescan"@ && other
            != "quit"@ && !"remove-portable:"@.is_prefix_of(other) ==> action_of(other) is Ignore,
{
    reveal_strlit("remove-portable:");
    reveal_strlit("add-portable");
    reveal_strlit("open-config");
    reveal_strlit("rescan");
    reveal_strlit("quit");
    assert("add-portable"@.len() == 12 && "open-config"@.len() == 11);
    assert("rescan"@.len() == 6 && "quit"@.len() == 4);
    let id = "remove-portable:"@ + path;
    assert(id.subrange(0, 16) =~= "remove-portable:"@);
    assert(id.skip(16) =~= path);
    assert(id.len() >= 16);
}

} // verus!
