//! Start-menu shortcuts: which of them are indexed, and as what.

use crate::entry::{rows, AppInfo, Row};
use crate::text::{
    contains, contains_text, law_small_letters, lowered, plain_text, stands_at, starts_with, text_eq,
    to_lowercase, view_opt, views,
};
use crate::winpath::{
    absolute, component, ends_in, extension_is, file_name, file_name_of, has_extension, is_absolute,
    is_local, join, joined, law_absolute_on_a_drive, law_absolute_on_a_share, law_folder_holds_name,
    law_joined_under_a_local_folder, law_last_component_is_file_name, prefix_kind, stem, stem_of,
};
use vstd::prelude::*;
use vstd::utf8::is_ascii_chars;

verus! {

/// A shortcut file as the scan of the start menu found it: its path, the localized name
/// that the shell shows for it, its resolved target (empty where it could not be
/// resolved), and whether that target is there.
#[derive(Debug)]
pub struct Shortcut {
    pub path: String,
    pub display: Option<String>,
    pub target: String,
    pub target_exists: bool,
}

/// The texts of a shortcut.
pub struct Found {
    pub path: Seq<char>,
    pub display: Option<Seq<char>>,
    pub target: Seq<char>,
    pub target_exists: bool,
}

impl View for Shortcut {
    type V = Found;

    open spec fn view(&self) -> Found {
        Found {
            path: self.path@,
            display: view_opt(self.display),
            target: self.target@,
            target_exists: self.target_exists,
        }
    }
}

/// The words that mark a shortcut as noise: uninstallers, help and readme links,
/// updaters, documentation. The Chinese documentation words are phrases: the bare word
/// for a document is part of real apps' names.
pub open spec fn junk_words() -> Seq<Seq<char>> {
    seq![
        "uninstall"@,
        "uninstaller"@,
        "unins"@,
        "remove"@,
        "help"@,
        "readme"@,
        "update"@,
        "updater"@,
        "website"@,
        "documentation"@,
        "documents"@,
        "manual"@,
        "guide"@,
        "帮助文档"@,
        "使用文档"@,
        "用户手册"@,
        "使用手册"@,
        "使用说明"@,
        "卸载"@,
        "卸载程序"@,
        "卸载工具"@,
        "帮助"@,
    ]
}

/// The words that mark a shortcut as noise.
pub fn junk_keywords() -> (r: Vec<&'static str>)
    ensures
        r@.len() == junk_words().len(),
        forall|i: int| 0 <= i < r@.len() ==> (#[trigger] r@[i])@ == junk_words()[i],
{
    vec![
        "uninstall",
        "uninstaller",
        "unins",
        "remove",
        "help",
        "readme",
        "update",
        "updater",
        "website",
        "documentation",
        "documents",
        "manual",
        "guide",
        "帮助文档",
        "使用文档",
        "用户手册",
        "使用手册",
        "使用说明",
        "卸载",
        "卸载程序",
        "卸载工具",
        "帮助",
    ]
}

/// The text, or the empty one.
pub open spec fn or_empty(t: Option<Seq<char>>) -> Seq<char> {
    match t {
        Some(s) => s,
        None => Seq::empty(),
    }
}

/// The text holds a noise word.
pub open spec fn junk_in(text: Seq<char>) -> bool {
    exists|k: int|
        0 <= k < junk_words().len() && contains_text(text, #[trigger] junk_words()[k])
}

/// A shortcut of this name and target is noise: its name or the target's file name holds a
/// noise word, in whatever case of letters. The folders of the target play no part.
pub open spec fn junk(name: Seq<char>, target: Seq<char>) -> bool {
    junk_in(lowered(name)) || junk_in(lowered(or_empty(file_name_of(target))))
}

/// Whether a text in small letters holds a noise word.
pub fn has_junk_word(text: &str) -> (r: bool)
    ensures
        r == junk_in(text@),
{
    let words = junk_keywords();
    let mut k: usize = 0;
    while k < words.len()
        invariant
            words@.len() == junk_words().len(),
            forall|i: int| 0 <= i < words@.len() ==> (#[trigger] words@[i])@ == junk_words()[i],
            k <= words@.len(),
            forall|i: int| 0 <= i < k ==> !contains_text(text@, #[trigger] junk_words()[i]),
        decreases words.len() - k,
    {
        assert(words@[k as int]@ == junk_words()[k as int]);
        if contains(text, words[k]) {
            return true;
        }
        k += 1;
    }
    false
}

/// Whether a shortcut looks like noise (uninstaller, help, updater). Looks at the
/// shortcut's name and the target's file name, never at a folder of the target.
pub fn is_junk(name: &str, target_path: &str) -> (r: bool)
    ensures
        r == junk(name@, target_path@),
{
    if has_junk_word(to_lowercase(name).as_str()) {
        return true;
    }
    let file = match file_name(target_path) {
        Some(f) => f,
        None => String::new(),
    };
    assert(file@ =~= or_empty(file_name_of(target_path@)));
    has_junk_word(to_lowercase(file.as_str()).as_str())
}

/// Only a local absolute path in plain ASCII is looked up on disk. An empty target may
/// still launch, a network share would be slow to ask, a relative path is expanded by
/// the shell, and of a path with other characters the lookup says nothing reliable.
pub open spec fn checked_on_disk(target: Seq<char>) -> bool {
    &&& target.len() > 0
    &&& !"\\\\"@.is_prefix_of(target)
    &&& !"//"@.is_prefix_of(target)
    &&& is_absolute(target)
    &&& is_ascii_chars(target)
}

/// The target looks live: it is not one that is looked up on disk, or it is there.
pub open spec fn live(target: Seq<char>, exists: bool) -> bool {
    checked_on_disk(target) ==> exists
}

/// Whether it takes a look at the disk to tell if `target` is live.
pub fn needs_disk_check(target: &str) -> (r: bool)
    ensures
        r == checked_on_disk(target@),
{
    !target.is_empty() && !starts_with(target, "\\\\") && !starts_with(target, "//") && absolute(
        target,
    ) && target.is_ascii()
}

/// Whether a target still looks like a live local resource, where `exists` says if it
/// was found on disk.
pub fn link_is_valid(target: &str, exists: bool) -> (r: bool)
    ensures
        r == live(target@, exists),
{
    !needs_disk_check(target) || exists
}

/// Whether a start-menu entry is left out of the index: it is noise, or its local
/// target is gone.
pub fn drop_shortcut(a: &AppInfo, target_exists: bool) -> (r: bool)
    ensures
        r == (junk(a@.name, a@.target_path) || !live(a@.target_path, target_exists)),
{
    is_junk(a.name.as_str(), a.target_path.as_str()) || !link_is_valid(
        a.target_path.as_str(),
        target_exists,
    )
}

/// The row for a shortcut: the shell's localized name, with the file's own name as an
/// alias where that differs; the file's own name where the shell gives none.
pub open spec fn lnk_row(s: Found) -> Row {
    let display = or_empty(s.display);
    let stem = or_empty(stem_of(s.path));
    Row {
        name: if display.len() == 0 {
            stem
        } else {
            display
        },
        comment: None,
        launch_path: s.path,
        target_path: s.target,
        icon: None,
        aliases: if display.len() > 0 && stem != display {
            seq![stem]
        } else {
            Seq::empty()
        },
    }
}

/// The entry for a shortcut.
pub fn parse_lnk(s: &Shortcut) -> (r: AppInfo)
    ensures
        r@ == lnk_row(s@),
{
    let display = match &s.display {
        Some(d) => d.clone(),
        None => String::new(),
    };
    let stem = match stem(s.path.as_str()) {
        Some(t) => t,
        None => String::new(),
    };
    let shown = !display.as_str().is_empty();
    let mut aliases: Vec<String> = Vec::new();
    if shown && !text_eq(stem.as_str(), display.as_str()) {
        aliases.push(stem.clone());
        assert(views(aliases@) =~= seq![stem@]);
    } else {
        assert(views(aliases@) =~= Seq::empty());
    }
    let name = if shown {
        display
    } else {
        stem
    };
    AppInfo {
        name,
        comment: None,
        launch_path: s.path.clone(),
        target_path: s.target.clone(),
        icon: None,
        aliases,
    }
}

/// A shortcut makes a row behind `before`: it is a `.lnk` file, it is kept, and no row
/// before it has the same resolved target.
pub open spec fn indexed(before: Seq<Row>, s: Found) -> bool {
    let row = lnk_row(s);
    &&& has_extension(s.path, "lnk"@)
    &&& !junk(row.name, row.target_path)
    &&& live(row.target_path, s.target_exists)
    &&& row.target_path.len() > 0 ==> forall|i: int|
        0 <= i < before.len() ==> (#[trigger] before[i]).target_path != row.target_path
}

/// The rows of the start menu, in the order of the scan.
pub open spec fn menu_rows(found: Seq<Found>) -> Seq<Row>
    decreases found.len(),
{
    if found.len() == 0 {
        Seq::empty()
    } else {
        let before = menu_rows(found.drop_last());
        if indexed(before, found.last()) {
            before.push(lnk_row(found.last()))
        } else {
            before
        }
    }
}

/// What the scan found, as texts.
pub open spec fn found(shortcuts: Seq<Shortcut>) -> Seq<Found> {
    Seq::new(shortcuts.len(), |i: int| shortcuts[i]@)
}

/// Whether some entry has this target.
fn has_target(apps: &Vec<AppInfo>, target: &String) -> (r: bool)
    ensures
        r == exists|i: int|
            0 <= i < rows(apps@).len() && (#[trigger] rows(apps@)[i]).target_path == target@,
{
    let mut i: usize = 0;
    while i < apps.len()
        invariant
            i <= apps@.len(),
            forall|j: int| 0 <= j < i ==> (#[trigger] rows(apps@)[j]).target_path != target@,
        decreases apps.len() - i,
    {
        if apps[i].target_path == *target {
            assert(rows(apps@)[i as int].target_path == target@);
            return true;
        }
        i += 1;
    }
    false
}

/// The entries of the start menu: noise and dead links are left out, and of the
/// shortcuts to one program the first is kept.
pub fn start_menu_apps(shortcuts: &Vec<Shortcut>) -> (r: Vec<AppInfo>)
    ensures
        rows(r@) == menu_rows(found(shortcuts@)),
{
    let mut apps: Vec<AppInfo> = Vec::new();
    let ghost all = found(shortcuts@);
    let mut i: usize = 0;
    assert(rows(apps@) =~= menu_rows(all.take(0)));
    while i < shortcuts.len()
        invariant
            all == found(shortcuts@),
            i <= shortcuts@.len(),
            rows(apps@) == menu_rows(all.take(i as int)),
        decreases shortcuts.len() - i,
    {
        let s = &shortcuts[i];
        let ghost before = rows(apps@);
        assert(all.take(i + 1).drop_last() =~= all.take(i as int));
        assert(all.take(i + 1).last() == s@);
        let app = parse_lnk(s);
        let kept = extension_is(s.path.as_str(), "lnk") && !drop_shortcut(&app, s.target_exists)
            && (app.target_path.as_str().is_empty() || !has_target(&apps, &app.target_path));
        assert(kept == indexed(before, s@));
        if kept {
            apps.push(app);
            assert(rows(apps@) =~= before.push(lnk_row(s@)));
        }
        i += 1;
    }
    assert(all.take(all.len() as int) =~= all);
    apps
}

/// The folders of the start menu under the given application-data folders.
pub open spec fn menu_roots(appdata: Option<Seq<char>>, programdata: Option<Seq<char>>) -> Seq<
    Seq<char>,
> {
    let tail = "Microsoft\\Windows\\Start Menu\\Programs"@;
    let first = match appdata {
        Some(p) => seq![joined(p, tail)],
        None => Seq::empty(),
    };
    match programdata {
        Some(p) => first.push(joined(p, tail)),
        None => first,
    }
}

/// The two start-menu folders that are scanned, per-user and shared, where the
/// environment gives their base.
pub fn start_menu_roots(appdata: &Option<String>, programdata: &Option<String>) -> (r: Vec<String>)
    ensures
        views(r@) == menu_roots(view_opt(*appdata), view_opt(*programdata)),
{
    let tail = "Microsoft\\Windows\\Start Menu\\Programs";
    let mut roots: Vec<String> = Vec::new();
    if let Some(p) = appdata {
        roots.push(join(p.as_str(), tail));
    }
    if let Some(p) = programdata {
        roots.push(join(p.as_str(), tail));
    }
    assert(views(roots@) =~= menu_roots(view_opt(*appdata), view_opt(*programdata)));
    roots
}

/// No two rows of the start menu share a resolved target.
pub proof fn law_menu_targets_are_distinct(found: Seq<Found>)
    ensures
        forall|i: int, j: int|
            0 <= i < j < menu_rows(found).len() && (#[trigger] menu_rows(found)[i]).target_path.len()
                > 0 ==> menu_rows(found)[i].target_path != (#[trigger] menu_rows(found)[j]).target_path,
    decreases found.len(),
{
    if found.len() > 0 {
        law_menu_targets_are_distinct(found.drop_last());
    }
}

/// Every row of the start menu is the row of a `.lnk` file that is neither noise nor
/// dead.
pub proof fn law_menu_rows_are_clean(found: Seq<Found>, i: int)
    requires
        0 <= i < menu_rows(found).len(),
    ensures
        !junk(menu_rows(found)[i].name, menu_rows(found)[i].target_path),
        exists|k: int|
            0 <= k < found.len() && menu_rows(found)[i] == lnk_row(#[trigger] found[k])
                && has_extension(found[k].path, "lnk"@) && live(
                found[k].target,
                found[k].target_exists,
            ),
    decreases found.len(),
{
    let before = menu_rows(found.drop_last());
    if i < before.len() {
        law_menu_rows_are_clean(found.drop_last(), i);
        let k = choose|k: int|
            0 <= k < found.len() - 1 && before[i] == lnk_row(#[trigger] found.drop_last()[k])
                && has_extension(found.drop_last()[k].path, "lnk"@) && live(
                found.drop_last()[k].target,
                found.drop_last()[k].target_exists,
            );
        assert(found.drop_last()[k] == found[k]);
    } else {
        assert(found.last() == found[found.len() - 1]);
    }
}

/// No live program is lost: a `.lnk` file that is neither noise nor dead is in the start
/// menu's rows itself, or an earlier one with the same target is.
pub proof fn law_kept_shortcut_is_represented(found: Seq<Found>, k: int)
    requires
        0 <= k < found.len(),
        has_extension(found[k].path, "lnk"@),
        !junk(lnk_row(found[k]).name, found[k].target),
        live(found[k].target, found[k].target_exists),
    ensures
        exists|i: int|
            0 <= i < menu_rows(found).len() && ((#[trigger] menu_rows(found)[i]) == lnk_row(found[k])
                || (found[k].target.len() > 0 && menu_rows(found)[i].target_path == found[k].target)),
    decreases found.len(),
{
    let before = menu_rows(found.drop_last());
    let all = menu_rows(found);
    if k < found.len() - 1 {
        law_kept_shortcut_is_represented(found.drop_last(), k);
        let i = choose|i: int|
            0 <= i < before.len() && ((#[trigger] before[i]) == lnk_row(found[k]) || (
            found[k].target.len() > 0 && before[i].target_path == found[k].target));
        assert(all[i] == before[i]);
    } else if indexed(before, found[k]) {
        assert(all[all.len() - 1] == lnk_row(found[k]));
    } else {
        let i = choose|i: int|
            0 <= i < before.len() && (#[trigger] before[i]).target_path == found[k].target;
        assert(all[i].target_path == found[k].target);
    }
}

/// Of the target only the file name plays a part in whether a shortcut is noise.
pub proof fn law_junk_looks_at_the_file_name(name: Seq<char>, target: Seq<char>, other: Seq<char>)
    requires
        file_name_of(target) == file_name_of(other),
    ensures
        junk(name, target) == junk(name, other),
{
}

/// The folder of a target plays no part in whether a shortcut is noise: an app in a
/// folder called `update` is kept. The folder can be any, as long as the file is not read
/// as part of the path's prefix, as it would be behind a bare server name.
pub proof fn law_junk_ignores_folders(
    name: Seq<char>,
    target: Seq<char>,
    other: Seq<char>,
    file: Seq<char>,
)
    requires
        component(file),
        ends_in(target, file),
        ends_in(other, file),
    ensures
        junk(name, target) == junk(name, other),
{
    law_last_component_is_file_name(target, file);
    law_last_component_is_file_name(other, file);
}

/// The folder plays no part for local folders, relative or on a drive, and for network
/// shares.
pub proof fn law_junk_ignores_local_folders_and_shares(
    name: Seq<char>,
    folder: Seq<char>,
    other: Seq<char>,
    file: Seq<char>,
)
    requires
        is_local(folder) || prefix_kind(folder) is Unc,
        is_local(other) || prefix_kind(other) is Unc,
        component(file),
    ensures
        junk(name, folder.push('\\') + file) == junk(name, other.push('\\') + file),
{
    law_folder_holds_name(folder, '\\', file);
    law_folder_holds_name(other, '\\', file);
}

proof fn lemma_words_have_no_space(k: int)
    requires
        0 <= k < junk_words().len(),
    ensures
        !junk_words()[k].contains(' '),
{
    reveal_strlit("uninstall");
    reveal_strlit("uninstaller");
    reveal_strlit("unins");
    reveal_strlit("remove");
    reveal_strlit("help");
    reveal_strlit("readme");
    reveal_strlit("update");
    reveal_strlit("updater");
    reveal_strlit("website");
    reveal_strlit("documentation");
    reveal_strlit("documents");
    reveal_strlit("manual");
    reveal_strlit("guide");
    reveal_strlit("帮助文档");
    reveal_strlit("使用文档");
    reveal_strlit("用户手册");
    reveal_strlit("使用手册");
    reveal_strlit("使用说明");
    reveal_strlit("卸载");
    reveal_strlit("卸载程序");
    reveal_strlit("卸载工具");
    reveal_strlit("帮助");
    let w = junk_words()[k];
    if w.contains(' ') {
        let i = choose|i: int| 0 <= i < w.len() && w[i] == ' ';
        assert(0 <= i < 13);
    }
}

proof fn lemma_stands_on_one_side(a: Seq<char>, b: Seq<char>, w: Seq<char>)
    requires
        !w.contains(' '),
    ensures
        contains_text(a.push(' ') + b, w) == (contains_text(a, w) || contains_text(b, w)),
{
    let all = a.push(' ') + b;
    let n = a.len() as int;
    if contains_text(all, w) {
        let i = choose|i: int| stands_at(all, w, i);
        let len = w.len() as int;
        if i + len <= n {
            assert(all.subrange(i, i + len) =~= a.subrange(i, i + len));
            assert(stands_at(a, w, i));
        } else if i > n {
            let j = i - n - 1;
            assert(all.subrange(i, i + len) =~= b.subrange(j, j + len));
            assert(stands_at(b, w, j));
        } else {
            assert(all.subrange(i, i + len)[n - i] == ' ');
            assert(w[n - i] == ' ');
        }
    }
    if contains_text(a, w) {
        let i = choose|i: int| stands_at(a, w, i);
        assert(all.subrange(i, i + w.len()) =~= a.subrange(i, i + w.len()));
        assert(stands_at(all, w, i));
    }
    if contains_text(b, w) {
        let j = choose|j: int| stands_at(b, w, j);
        let i = j + n + 1;
        assert(all.subrange(i, i + w.len()) =~= b.subrange(j, j + w.len()));
        assert(stands_at(all, w, i));
    }
}

/// A shortcut is noise where its name or the target's file name holds a noise word, each by
/// itself and in small letters, in whatever folder the file is.
pub proof fn law_junk_in_name_or_file(name: Seq<char>, target: Seq<char>, file: Seq<char>)
    requires
        component(file),
        ends_in(target, file),
    ensures
        junk(name, target) == exists|k: int|
            0 <= k < junk_words().len() && (contains_text(
                lowered(name),
                #[trigger] junk_words()[k],
            ) || contains_text(lowered(file), junk_words()[k])),
{
    law_last_component_is_file_name(target, file);
}

/// Joining the name and the file name with a space brings about no noise word that is not in
/// one of them. Stated for texts of ASCII and Han characters, whose small letters do not
/// depend on what stands around them.
pub proof fn law_joining_adds_no_noise(name: Seq<char>, file: Seq<char>)
    requires
        plain_text(name),
        plain_text(file),
    ensures
        junk_in(lowered(name.push(' ') + file)) == (junk_in(lowered(name)) || junk_in(
            lowered(file),
        )),
{
    let all = name.push(' ') + file;
    let a = lowered(name);
    let b = lowered(file);
    assert(plain_text(all));
    assert(lowered(all) =~= a.push(' ') + b);
    assert forall|k: int| 0 <= k < junk_words().len() implies contains_text(
        lowered(all),
        #[trigger] junk_words()[k],
    ) == (contains_text(a, junk_words()[k]) || contains_text(b, junk_words()[k])) by {
        lemma_words_have_no_space(k);
        lemma_stands_on_one_side(a, b, junk_words()[k]);
    }
}

/// A target that is not looked up on disk is never dropped as dead: an empty one, a
/// network share, a relative path, or one with characters beyond ASCII.
pub proof fn law_unchecked_targets_are_live(target: Seq<char>, exists: bool)
    requires
        target.len() == 0 || "\\\\"@.is_prefix_of(target) || "//"@.is_prefix_of(target)
            || !is_absolute(target) || !is_ascii_chars(target),
    ensures
        live(target, exists),
{
}

/// The case of letters plays no part in whether a shortcut is noise.
pub proof fn law_junk_ignores_case(name: Seq<char>, other: Seq<char>, target: Seq<char>)
    requires
        lowered(name) == lowered(other),
    ensures
        junk(name, target) == junk(other, target),
{
}

/// A local target that is gone is dead: it begins with a drive letter, a colon and a
/// separator and holds ASCII characters only, of whatever kind. Where it is there, it is
/// live.
pub proof fn law_missing_local_target_is_dead(target: Seq<char>)
    requires
        target.len() >= 3,
        ('a' <= target[0] && target[0] <= 'z') || ('A' <= target[0] && target[0] <= 'Z'),
        target[1] == ':',
        target[2] == '\\' || target[2] == '/',
        forall|i: int| 0 <= i < target.len() ==> (#[trigger] target[i]) as int <= 0x7f,
    ensures
        !live(target, false),
        live(target, true),
{
    reveal_strlit("\\\\");
    reveal_strlit("//");
    assert(target.subrange(0, 2)[1] == ':');
    law_absolute_on_a_drive(target);
    lemma_ascii(target);
}

/// Any other target that is not written with two leading separators is live, there or not:
/// it does not begin with a drive letter, a colon and a separator, or it holds a character
/// beyond ASCII.
pub proof fn law_other_targets_are_live(target: Seq<char>, exists: bool)
    requires
        target.len() < 2 || !(target[0] == '\\' || target[0] == '/') || !(target[1] == '\\'
            || target[1] == '/'),
        target.len() < 3 || !(('a' <= target[0] && target[0] <= 'z') || ('A' <= target[0]
            && target[0] <= 'Z')) || target[1] != ':' || !(target[2] == '\\' || target[2] == '/')
            || exists|i: int| 0 <= i < target.len() && (#[trigger] target[i]) as int > 0x7f,
    ensures
        live(target, exists),
{
    law_absolute_on_a_drive(target);
    lemma_ascii(target);
}

/// A target that begins with two backslashes or two slashes is live, there or not.
pub proof fn law_share_is_live(target: Seq<char>, exists: bool)
    requires
        target.len() >= 2,
        target[0] == target[1],
        target[0] == '\\' || target[0] == '/',
    ensures
        live(target, exists),
{
    reveal_strlit("\\\\");
    reveal_strlit("//");
    assert("\\\\"@.is_prefix_of(target) || "//"@.is_prefix_of(target));
}

/// A target on a network share that begins with a backslash and a slash, in either order, is
/// looked for on disk as a local one is; `s` is the place of the separator between server
/// and share.
pub proof fn law_missing_mixed_share_is_dead(target: Seq<char>, s: int)
    requires
        2 < s < target.len() - 1,
        (target[0] == '\\' && target[1] == '/') || (target[0] == '/' && target[1] == '\\'),
        target[s] == '\\' || target[s] == '/',
        forall|i: int| 2 <= i < s ==> (#[trigger] target[i]) != '\\' && target[i] != '/',
        target[s + 1] != '\\' && target[s + 1] != '/',
        forall|i: int| 0 <= i < target.len() ==> (#[trigger] target[i]) as int <= 0x7f,
    ensures
        !live(target, false),
        live(target, true),
{
    reveal_strlit("\\\\");
    reveal_strlit("//");
    assert(target.subrange(0, 2)[0] == target[0] && target.subrange(0, 2)[1] == target[1]);
    law_absolute_on_a_share(target, s);
    lemma_ascii(target);
}

proof fn lemma_ascii(text: Seq<char>)
    ensures
        is_ascii_chars(text) <==> forall|i: int|
            0 <= i < text.len() ==> (#[trigger] text[i]) as int <= 0x7f,
{
    assert forall|i: int| 0 <= i < text.len() implies '\0' <= #[trigger] text[i] by {
        lemma_first_char(text[i]);
    }
}

proof fn lemma_first_char(c: char)
    ensures
        '\0' <= c,
{
}

/// The start menu holds no row for a local target that is gone.
pub proof fn law_menu_holds_no_dead_target(found: Seq<Found>, target: Seq<char>)
    requires
        target.len() >= 3,
        ('a' <= target[0] && target[0] <= 'z') || ('A' <= target[0] && target[0] <= 'Z'),
        target[1] == ':',
        target[2] == '\\' || target[2] == '/',
        forall|i: int| 0 <= i < target.len() ==> (#[trigger] target[i]) as int <= 0x7f,
        forall|k: int|
            0 <= k < found.len() && (#[trigger] found[k]).target == target
                ==> !found[k].target_exists,
    ensures
        forall|i: int|
            0 <= i < menu_rows(found).len() ==> (#[trigger] menu_rows(found)[i]).target_path
                != target,
    decreases found.len(),
{
    if found.len() > 0 {
        let head = found.drop_last();
        assert forall|k: int|
            0 <= k < head.len() && (#[trigger] head[k]).target == target implies
            !head[k].target_exists by {
            assert(head[k] == found[k]);
        }
        law_menu_holds_no_dead_target(head, target);
        law_missing_local_target_is_dead(target);
        assert(found[found.len() - 1] == found.last());
    }
}

/// The start menu holds no row for a shortcut whose target is gone, whatever came before it.
pub proof fn law_dead_shortcut_adds_nothing(found: Seq<Found>, s: Found)
    requires
        s.target.len() >= 3,
        ('a' <= s.target[0] && s.target[0] <= 'z') || ('A' <= s.target[0] && s.target[0] <= 'Z'),
        s.target[1] == ':',
        s.target[2] == '\\' || s.target[2] == '/',
        forall|i: int| 0 <= i < s.target.len() ==> (#[trigger] s.target[i]) as int <= 0x7f,
        !s.target_exists,
    ensures
        menu_rows(found.push(s)) == menu_rows(found),
{
    assert(found.push(s).drop_last() =~= found);
    law_missing_local_target_is_dead(s.target);
}

/// A scan that found one more shortcut adds at most its row, at the end. It adds it where
/// the file is a `.lnk` file, is not noise, has a live target, and no shortcut before it
/// has a row with that target; and only there.
pub proof fn law_one_more_shortcut(found: Seq<Found>, s: Found, row: Row)
    requires
        row == lnk_row(s),
    ensures
        menu_rows(Seq::empty()).len() == 0,
        has_extension(s.path, "lnk"@) && !junk(row.name, s.target) && live(
            s.target,
            s.target_exists,
        ) && (s.target.len() == 0 || forall|i: int|
            0 <= i < menu_rows(found).len() ==> (#[trigger] menu_rows(found)[i]).target_path
                != s.target) ==> menu_rows(found.push(s)) == menu_rows(found) + seq![row],
        !has_extension(s.path, "lnk"@) || junk(row.name, s.target) || !live(
            s.target,
            s.target_exists,
        ) || (s.target.len() > 0 && exists|i: int|
            0 <= i < menu_rows(found).len() && (#[trigger] menu_rows(found)[i]).target_path
                == s.target) ==> menu_rows(found.push(s)) == menu_rows(found),
{
    assert(found.push(s).drop_last() =~= found);
    assert(menu_rows(found).push(row) =~= menu_rows(found) + seq![row]);
}

/// What a shortcut's row holds: the file to launch and its target as they were found, the
/// shell's name for it or else the file's own, and the file's own name to search by where the
/// two differ.
pub proof fn law_row_of_a_shortcut(s: Found, stem: Seq<char>)
    requires
        stem_of(s.path) == Some(stem),
    ensures
        lnk_row(s).launch_path == s.path,
        lnk_row(s).target_path == s.target,
        lnk_row(s).comment is None,
        lnk_row(s).icon is None,
        s.display matches Some(d) ==> d.len() > 0 ==> lnk_row(s).name == d,
        s.display matches Some(d) ==> d.len() > 0 && d != stem ==> lnk_row(s).aliases == seq![stem],
        s.display matches Some(d) ==> d.len() == 0 || d == stem ==> lnk_row(s).name == stem
            && lnk_row(s).aliases.len() == 0,
        s.display is None ==> lnk_row(s).name == stem && lnk_row(s).aliases.len() == 0,
{
}

/// The noise words, one by one.
pub proof fn law_noise_words(text: Seq<char>)
    ensures
        junk_in(text) <==> (contains_text(text, "uninstall"@) || contains_text(
            text,
            "uninstaller"@,
        ) || contains_text(text, "unins"@) || contains_text(text, "remove"@) || contains_text(
            text,
            "help"@,
        ) || contains_text(text, "readme"@) || contains_text(text, "update"@) || contains_text(
            text,
            "updater"@,
        ) || contains_text(text, "website"@) || contains_text(text, "documentation"@)
            || contains_text(text, "documents"@) || contains_text(text, "manual"@) || contains_text(
            text,
            "guide"@,
        ) || contains_text(text, "帮助文档"@) || contains_text(text, "使用文档"@) || contains_text(
            text,
            "用户手册"@,
        ) || contains_text(text, "使用手册"@) || contains_text(text, "使用说明"@) || contains_text(
            text,
            "卸载"@,
        ) || contains_text(text, "卸载程序"@) || contains_text(text, "卸载工具"@) || contains_text(
            text,
            "帮助"@,
        )),
{
    let w = junk_words();
    assert(w.len() == 22);
    assert(w[0] == "uninstall"@ && w[1] == "uninstaller"@ && w[2] == "unins"@ && w[3] == "remove"@);
    assert(w[4] == "help"@ && w[5] == "readme"@ && w[6] == "update"@ && w[7] == "updater"@);
    assert(w[8] == "website"@ && w[9] == "documentation"@ && w[10] == "documents"@);
    assert(w[11] == "manual"@ && w[12] == "guide"@ && w[13] == "帮助文档"@ && w[14] == "使用文档"@);
    assert(w[15] == "用户手册"@ && w[16] == "使用手册"@ && w[17] == "使用说明"@ && w[18] == "卸载"@);
    assert(w[19] == "卸载程序"@ && w[20] == "卸载工具"@ && w[21] == "帮助"@);
}

/// A shortcut whose name holds a noise word, each character of it in its small or its
/// capital form, is noise, whatever its target. Stated for names of ASCII and Han
/// characters.
pub proof fn law_noise_in_any_case(name: Seq<char>, target: Seq<char>, word: Seq<char>, at: int)
    requires
        junk_in(word),
        forall|i: int|
            0 <= i < name.len() ==> (#[trigger] name[i]) as int <= 0x7f || ('\u{4e00}' <= name[i]
                && name[i] <= '\u{9fff}'),
        0 <= at <= name.len() - word.len(),
        forall|i: int|
            0 <= i < word.len() ==> (#[trigger] word[i]) == name[at + i] && !('A' <= word[i] && word[i]
                <= 'Z') || ('A' <= name[at + i] && name[at + i] <= 'Z' && word[i] as int == name[at
                + i] as int + 32),
    ensures
        junk(name, target),
{
    let small = lowered(name);
    law_small_letters(name);
    assert(small.subrange(at, at + word.len()) =~= word);
    let k = choose|k: int|
        0 <= k < junk_words().len() && contains_text(word, #[trigger] junk_words()[k]);
    let part = junk_words()[k];
    let j = choose|j: int| stands_at(word, part, j);
    assert(small.subrange(at + j, at + j + part.len()) =~= word.subrange(j, j + part.len()));
    assert(stands_at(small, part, at + j));
}

/// A shortcut without a noise word in its name and in its target's file name is no noise,
/// and the file name counts as the name does.
pub proof fn law_noise_in_name_or_file_name(name: Seq<char>, target: Seq<char>)
    ensures
        file_name_of(target) is None ==> (junk(name, target) <==> junk_in(lowered(name))),
        file_name_of(target) matches Some(file) ==> (junk(name, target) <==> junk_in(lowered(name))
            || junk_in(lowered(file))),
{
    lemma_nothing_is_no_noise();
}

proof fn lemma_nothing_is_no_noise()
    ensures
        !junk_in(lowered(Seq::empty())),
{
    reveal_strlit("uninstall");
    reveal_strlit("uninstaller");
    reveal_strlit("unins");
    reveal_strlit("remove");
    reveal_strlit("help");
    reveal_strlit("readme");
    reveal_strlit("update");
    reveal_strlit("updater");
    reveal_strlit("website");
    reveal_strlit("documentation");
    reveal_strlit("documents");
    reveal_strlit("manual");
    reveal_strlit("guide");
    reveal_strlit("帮助文档");
    reveal_strlit("使用文档");
    reveal_strlit("用户手册");
    reveal_strlit("使用手册");
    reveal_strlit("使用说明");
    reveal_strlit("卸载");
    reveal_strlit("卸载程序");
    reveal_strlit("卸载工具");
    reveal_strlit("帮助");
    let nothing = lowered(Seq::empty());
    assert(nothing.len() == 0);
    assert forall|k: int| 0 <= k < junk_words().len() implies !contains_text(
        nothing,
        #[trigger] junk_words()[k],
    ) by {
        assert(junk_words()[k].len() > 0);
    }
}

/// The start menu is looked for under a folder of application data, the user's before the
/// shared one. Stated for folders that do not begin with two separators nor end in one.
pub proof fn law_start_menu_folders(user: Seq<char>, shared: Seq<char>)
    requires
        user.len() > 2,
        !(user[0] == '\\' || user[0] == '/') || !(user[1] == '\\' || user[1] == '/'),
        user.last() != '\\' && user.last() != '/',
        shared.len() > 2,
        !(shared[0] == '\\' || shared[0] == '/') || !(shared[1] == '\\' || shared[1] == '/'),
        shared.last() != '\\' && shared.last() != '/',
    ensures
        menu_roots(None, None).len() == 0,
        menu_roots(Some(user), None) == seq![
            user + "\\Microsoft\\Windows\\Start Menu\\Programs"@,
        ],
        menu_roots(None, Some(shared)) == seq![
            shared + "\\Microsoft\\Windows\\Start Menu\\Programs"@,
        ],
        menu_roots(Some(user), Some(shared)) == seq![
            user + "\\Microsoft\\Windows\\Start Menu\\Programs"@,
            shared + "\\Microsoft\\Windows\\Start Menu\\Programs"@,
        ],
{
    let tail = "Microsoft\\Windows\\Start Menu\\Programs"@;
    let long = "\\Microsoft\\Windows\\Start Menu\\Programs"@;
    reveal_strlit("Microsoft\\Windows\\Start Menu\\Programs");
    reveal_strlit("\\Microsoft\\Windows\\Start Menu\\Programs");
    assert(long =~= seq!['\\'] + tail);
    law_joined_under_a_local_folder(user, tail);
    law_joined_under_a_local_folder(shared, tail);
    assert(user + seq!['\\'] + tail =~= user + long);
    assert(shared + seq!['\\'] + tail =~= shared + long);
    assert(menu_roots(Some(user), Some(shared)) =~= seq![user + long, shared + long]);
}

} // verus!
