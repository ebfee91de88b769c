//! Portable apps: exes that the user registered by hand.
//!
//! They stand in a manifest of their own. The name shown is the user's alias, else the
//! description in the exe's version resource, else the file stem. They are launched
//! with their own folder as the working directory, since portables commonly read their
//! settings and plugins relative to it.

use crate::entry::{copy_opt, rows, AppInfo, Row};
use crate::launch::{failure, shell_outcome, Request, ShellRequest, SHELL_ERROR_MAX};
use crate::shortcuts::{law_missing_local_target_is_dead, link_is_valid, live};
use crate::text::{hex4, hex_value, law_hex4, text_eq, to_hex4, view_opt, views};
use crate::wide::{read_wide, wide_text};
use crate::winpath::{parent, parent_of, stem, stem_of};
use vstd::prelude::*;

verus! {

/// One manually added portable app.
#[derive(Debug)]
pub struct PortableEntry {
    pub path: String,
    pub name: Option<String>,
}

/// The whole manifest file.
#[derive(Debug)]
pub struct PortableManifest {
    pub apps: Vec<PortableEntry>,
}

/// The texts of a portable app.
#[verifier::ext_equal]
pub struct Registered {
    pub path: Seq<char>,
    pub name: Option<Seq<char>>,
}

impl View for PortableEntry {
    type V = Registered;

    open spec fn view(&self) -> Registered {
        Registered { path: self.path@, name: view_opt(self.name) }
    }
}

impl View for PortableManifest {
    type V = Seq<Registered>;

    open spec fn view(&self) -> Seq<Registered> {
        Seq::new(self.apps@.len(), |i: int| self.apps@[i]@)
    }
}

impl Clone for PortableEntry {
    fn clone(&self) -> (r: Self)
        ensures
            r@ == self@,
    {
        PortableEntry { path: self.path.clone(), name: copy_opt(&self.name) }
    }
}

impl Default for PortableManifest {
    fn default() -> (r: Self)
        ensures
            r@ == Seq::<Registered>::empty(),
    {
        let m = PortableManifest { apps: Vec::new() };
        assert(m@ =~= Seq::empty());
        m
    }
}

/// `path` stands in the manifest.
pub open spec fn known(m: Seq<Registered>, path: Seq<char>) -> bool {
    exists|i: int| 0 <= i < m.len() && (#[trigger] m[i]).path == path
}

/// No path stands in the manifest twice.
pub open spec fn distinct(m: Seq<Registered>) -> bool {
    forall|i: int, j: int|
        0 <= i < j < m.len() ==> (#[trigger] m[i]).path != (#[trigger] m[j]).path
}

/// The manifest with `path` registered: behind the others, without an alias.
pub open spec fn added(m: Seq<Registered>, path: Seq<char>) -> Seq<Registered> {
    if known(m, path) {
        m
    } else {
        m.push(Registered { path, name: None })
    }
}

/// The manifest without the entries for `path`.
pub open spec fn removed(m: Seq<Registered>, path: Seq<char>) -> Seq<Registered> {
    m.filter(|e: Registered| e.path != path)
}

/// Whether `path` is a registered portable exe.
pub fn is_known_portable(m: &PortableManifest, path: &str) -> (r: bool)
    ensures
        r == known(m@, path@),
{
    let mut i: usize = 0;
    while i < m.apps.len()
        invariant
            i <= m.apps@.len(),
            forall|j: int| 0 <= j < i ==> (#[trigger] m@[j]).path != path@,
        decreases m.apps.len() - i,
    {
        if text_eq(m.apps[i].path.as_str(), path) {
            assert(m@[i as int].path == path@);
            return true;
        }
        i += 1;
    }
    false
}

/// Registers `path`; says whether the manifest changed.
pub fn add_portable(m: &mut PortableManifest, path: &str) -> (r: bool)
    ensures
        r == !known(old(m)@, path@),
        final(m)@ == added(old(m)@, path@),
{
    if is_known_portable(m, path) {
        return false;
    }
    m.apps.push(PortableEntry { path: path.to_owned(), name: None });
    assert(m@ =~= added(old(m)@, path@));
    true
}

/// Drops `path` from the manifest.
pub fn remove_portable(m: &mut PortableManifest, path: &str)
    ensures
        final(m)@ == removed(old(m)@, path@),
{
    let ghost all = m@;
    let ghost keep = |e: Registered| e.path != path@;
    let mut kept: Vec<PortableEntry> = Vec::new();
    let mut i: usize = 0;
    assert(PortableManifest { apps: kept }@ =~= all.take(0).filter(keep)) by {
        reveal(Seq::filter);
    }
    while i < m.apps.len()
        invariant
            all == m@,
            keep == (|e: Registered| e.path != path@),
            i <= m.apps@.len(),
            (PortableManifest { apps: kept })@ == all.take(i as int).filter(keep),
        decreases m.apps.len() - i,
    {
        let ghost before = (PortableManifest { apps: kept })@;
        assert(all.take(i + 1).drop_last() =~= all.take(i as int));
        assert(all.take(i + 1).filter(keep) == if keep(all[i as int]) {
            before.push(all[i as int])
        } else {
            before
        }) by {
            reveal(Seq::filter);
        }
        if !text_eq(m.apps[i].path.as_str(), path) {
            kept.push(m.apps[i].clone());
            assert((PortableManifest { apps: kept })@ =~= before.push(all[i as int]));
        }
        i += 1;
    }
    assert(all.take(all.len() as int) =~= all);
    m.apps = kept;
}

/// The last resort for a name: the file stem, or the path where it has none.
pub open spec fn stem_or_path(path: Seq<char>) -> Seq<char> {
    match stem_of(path) {
        Some(s) => s,
        None => path,
    }
}

/// The exe's file stem, minus `.exe`: the last resort for a name.
pub fn file_stem(path: &str) -> (r: String)
    ensures
        r@ == stem_or_path(path@),
{
    match stem(path) {
        Some(s) => s,
        None => path.to_owned(),
    }
}

/// The name shown for a portable app: the alias, else the description, else the stem.
/// An empty alias or description counts as none, and behind an empty alias the
/// description is not asked.
pub open spec fn portable_name(e: Registered, description: Option<Seq<char>>) -> Seq<char> {
    let chosen = match e.name {
        Some(n) => Some(n),
        None => description,
    };
    match chosen {
        Some(n) => if n.len() > 0 {
            n
        } else {
            stem_or_path(e.path)
        },
        None => stem_or_path(e.path),
    }
}

/// The row for a portable app.
pub open spec fn portable_row(e: Registered, description: Option<Seq<char>>) -> Row {
    Row {
        name: portable_name(e, description),
        comment: Some("便携应用"@),
        launch_path: e.path,
        target_path: e.path,
        icon: None,
        aliases: Seq::empty(),
    }
}

/// The entry for a portable app, where `description` is what the exe's version resource
/// says.
pub fn parse_portable(e: &PortableEntry, description: &Option<String>) -> (r: AppInfo)
    ensures
        r@ == portable_row(e@, view_opt(*description)),
{
    let chosen = match &e.name {
        Some(n) => Some(n.clone()),
        None => copy_opt(description),
    };
    let name = match chosen {
        Some(n) => if n.as_str().is_empty() {
            file_stem(e.path.as_str())
        } else {
            n
        },
        None => file_stem(e.path.as_str()),
    };
    let aliases: Vec<String> = Vec::new();
    assert(views(aliases@) =~= Seq::empty());
    AppInfo {
        name,
        comment: Some("便携应用".to_owned()),
        launch_path: e.path.clone(),
        target_path: e.path.clone(),
        icon: None,
        aliases,
    }
}

/// A registered portable app as it was found: what its version resource says, and
/// whether the exe is there.
#[derive(Debug)]
pub struct PortableProbe {
    pub entry: PortableEntry,
    pub description: Option<String>,
    pub exists: bool,
}

/// The texts of a probed portable app.
pub struct Probed {
    pub entry: Registered,
    pub description: Option<Seq<char>>,
    pub exists: bool,
}

impl View for PortableProbe {
    type V = Probed;

    open spec fn view(&self) -> Probed {
        Probed {
            entry: self.entry@,
            description: view_opt(self.description),
            exists: self.exists,
        }
    }
}

/// The probed apps, as texts.
pub open spec fn probed(list: Seq<PortableProbe>) -> Seq<Probed> {
    Seq::new(list.len(), |i: int| list[i]@)
}

/// Some probed app has this path.
pub open spec fn probed_path(list: Seq<Probed>, path: Seq<char>) -> bool {
    exists|i: int| 0 <= i < list.len() && (#[trigger] list[i]).entry.path == path
}

/// The rows of the portable apps, in the order of the manifest: each path once, and
/// only those whose exe is live.
pub open spec fn portable_rows(list: Seq<Probed>) -> Seq<Row>
    decreases list.len(),
{
    if list.len() == 0 {
        Seq::empty()
    } else {
        let before = portable_rows(list.drop_last());
        let p = list.last();
        if !probed_path(list.drop_last(), p.entry.path) && live(p.entry.path, p.exists) {
            before.push(portable_row(p.entry, p.description))
        } else {
            before
        }
    }
}

/// Whether one of the first `n` probed apps has this path.
fn probed_before(list: &Vec<PortableProbe>, n: usize, path: &String) -> (r: bool)
    requires
        n <= list@.len(),
    ensures
        r == probed_path(probed(list@).take(n as int), path@),
{
    let ghost all = probed(list@).take(n as int);
    let mut i: usize = 0;
    while i < n
        invariant
            all == probed(list@).take(n as int),
            i <= n <= list@.len(),
            forall|j: int| 0 <= j < i ==> (#[trigger] all[j]).entry.path != path@,
        decreases n - i,
    {
        if list[i].entry.path == *path {
            assert(all[i as int].entry.path == path@);
            return true;
        }
        i += 1;
    }
    false
}

/// The entries of the portable apps.
pub fn portable_apps(list: &Vec<PortableProbe>) -> (r: Vec<AppInfo>)
    ensures
        rows(r@) == portable_rows(probed(list@)),
{
    let mut apps: Vec<AppInfo> = Vec::new();
    let ghost all = probed(list@);
    let mut i: usize = 0;
    assert(rows(apps@) =~= portable_rows(all.take(0)));
    while i < list.len()
        invariant
            all == probed(list@),
            i <= list@.len(),
            rows(apps@) == portable_rows(all.take(i as int)),
        decreases list.len() - i,
    {
        let p = &list[i];
        let ghost before = rows(apps@);
        assert(all.take(i + 1).drop_last() =~= all.take(i as int));
        assert(all.take(i + 1).last() == p@);
        if !probed_before(list, i, &p.entry.path) && link_is_valid(p.entry.path.as_str(), p.exists) {
            apps.push(parse_portable(&p.entry, &p.description));
            assert(rows(apps@) =~= before.push(portable_row(p@.entry, p@.description)));
        }
        i += 1;
    }
    assert(all.take(all.len() as int) =~= all);
    apps
}

/// The shell request that launches a portable exe: its own folder is the working
/// directory, elevated or not.
pub fn launch_portable(path: &str, elevate: bool) -> (r: ShellRequest)
    ensures
        r@ == (Request {
            verb: if elevate {
                "runas"@
            } else {
                "open"@
            },
            file: path@,
            directory: parent_of(path@),
        }),
{
    let verb = if elevate {
        "runas".to_owned()
    } else {
        "open".to_owned()
    };
    ShellRequest { verb, file: path.to_owned(), directory: parent(path) }
}

/// What the shell's answer to the launch of a portable exe means.
pub fn portable_outcome(code: i64) -> (r: Result<(), String>)
    ensures
        match r {
            Ok(_) => code > SHELL_ERROR_MAX,
            Err(e) => code <= SHELL_ERROR_MAX && e@ == failure("ShellExecute failed"@, code),
        },
        r is Ok <==> code > 32,
{
    shell_outcome("ShellExecute failed", code)
}

/// The sub-block of a version resource that holds the text `key` in the language and
/// code page of a translation.
pub open spec fn version_block(lang: int, code_page: int, key: Seq<char>) -> Seq<char> {
    "\\StringFileInfo\\"@ + hex4(lang) + hex4(code_page) + "\\"@ + key
}

/// The blocks that are asked for an exe's description, in order: none where the
/// translation table holds no full record, else those of its first record.
pub open spec fn description_blocks(table: Seq<u8>) -> Seq<Seq<char>> {
    if table.len() < 4 {
        Seq::empty()
    } else {
        let lang = table[0] + table[1] * 256;
        let code_page = table[2] + table[3] * 256;
        seq![
            version_block(lang, code_page, "FileDescription"@),
            version_block(lang, code_page, "ProductName"@),
        ]
    }
}

fn block_for(lang: u16, code_page: u16, key: &str) -> (r: String)
    ensures
        r@ == version_block(lang as int, code_page as int, key@),
{
    let mut out = "\\StringFileInfo\\".to_owned();
    out.append(to_hex4(lang).as_str());
    out.append(to_hex4(code_page).as_str());
    out.append("\\");
    out.append(key);
    out
}

/// The version-resource blocks to ask for an exe's description, given the resource's
/// translation table: the file description, then the product name.
pub fn version_queries(table: &Vec<u8>) -> (r: Vec<String>)
    ensures
        views(r@) == description_blocks(table@),
{
    let mut out: Vec<String> = Vec::new();
    if table.len() >= 4 {
        let lang: u16 = table[0] as u16 + table[1] as u16 * 256;
        let code_page: u16 = table[2] as u16 + table[3] as u16 * 256;
        out.push(block_for(lang, code_page, "FileDescription"));
        out.push(block_for(lang, code_page, "ProductName"));
    }
    assert(views(out@) =~= description_blocks(table@));
    out
}

/// The first answer that holds a text.
pub open spec fn first_text(answers: Seq<Option<Seq<u16>>>) -> Option<Seq<char>>
    decreases answers.len(),
{
    if answers.len() == 0 {
        None
    } else {
        match answers[0] {
            Some(u) => match wide_text(u) {
                Some(t) => Some(t),
                None => first_text(answers.drop_first()),
            },
            None => first_text(answers.drop_first()),
        }
    }
}

/// The answers of the version resource, as runs of units.
pub open spec fn answer_units(answers: Seq<Option<Vec<u16>>>) -> Seq<Option<Seq<u16>>> {
    Seq::new(
        answers.len(),
        |i: int|
            match answers[i] {
                Some(v) => Some(v@),
                None => None,
            },
    )
}

/// An exe's description from what its version resource answered to the queries: the
/// first answer that is not blank.
pub fn read_exe_description(answers: &Vec<Option<Vec<u16>>>) -> (r: Option<String>)
    ensures
        view_opt(r) == first_text(answer_units(answers@)),
{
    let ghost all = answer_units(answers@);
    let mut i: usize = 0;
    assert(all.skip(0) =~= all);
    while i < answers.len()
        invariant
            all == answer_units(answers@),
            i <= answers@.len(),
            first_text(all) == first_text(all.skip(i as int)),
        decreases answers.len() - i,
    {
        assert(all.skip(i as int).drop_first() =~= all.skip(i + 1));
        assert(all.skip(i as int)[0] == all[i as int]);
        if let Some(units) = &answers[i] {
            if let Some(t) = read_wide(units) {
                return Some(t);
            }
        }
        i += 1;
    }
    None
}

/// Registering a path makes it known and leaves everything else as it was; a manifest
/// without repetitions stays one.
pub proof fn law_add_registers(m: Seq<Registered>, path: Seq<char>)
    ensures
        known(added(m, path), path),
        m.is_prefix_of(added(m, path)),
        forall|q: Seq<char>| known(added(m, path), q) <==> q == path || known(m, q),
        distinct(m) ==> distinct(added(m, path)),
{
    let a = added(m, path);
    if !known(m, path) {
        assert(a[m.len() as int].path == path);
    }
    assert forall|q: Seq<char>| known(m, q) implies known(a, q) by {
        let i = choose|i: int| 0 <= i < m.len() && (#[trigger] m[i]).path == q;
        assert(a[i].path == q);
    }
    assert(m =~= a.take(m.len() as int));
}

/// Removing a path makes it unknown and keeps every other entry; a manifest without
/// repetitions stays one.
pub proof fn law_remove_unregisters(m: Seq<Registered>, path: Seq<char>)
    ensures
        !known(removed(m, path), path),
        forall|e: Registered|
            e.path != path ==> (removed(m, path).contains(e) <==> #[trigger] m.contains(e)),
        distinct(m) ==> distinct(removed(m, path)),
    decreases m.len(),
{
    reveal(Seq::filter);
    let r = removed(m, path);
    if m.len() > 0 {
        let head = m.drop_last();
        let before = removed(head, path);
        law_remove_unregisters(head, path);
        assert(m =~= head.push(m.last()));
        assert forall|e: Registered| e.path != path implies (r.contains(e)
            <==> #[trigger] m.contains(e)) by {
            assert(head.contains(e) <==> before.contains(e));
            if head.contains(e) {
                let k = choose|k: int| 0 <= k < head.len() && head[k] == e;
                assert(m[k] == e);
            }
            if before.contains(e) {
                let k = choose|k: int| 0 <= k < before.len() && before[k] == e;
                assert(r[k] == e);
            }
            if e == m.last() {
                assert(m[m.len() - 1] == e);
                assert(r[r.len() - 1] == e);
            }
        }
        if distinct(m) {
            assert(distinct(head));
            assert forall|i: int, j: int| 0 <= i < j < r.len() implies (#[trigger] r[i]).path != (
            #[trigger] r[j]).path by {
                assert(r.contains(r[i]));
                if j == before.len() {
                    assert(!known(before, path));
                    assert(before[i].path != path);
                    assert(before.contains(before[i]));
                    assert(head.contains(before[i]));
                    let k = choose|k: int| 0 <= k < head.len() && head[k] == before[i];
                    assert(m[k].path != m[m.len() - 1].path);
                }
            }
        }
    }
}

/// Removing a path that was just registered gives the manifest back as it was.
pub proof fn law_remove_undoes_add(m: Seq<Registered>, path: Seq<char>)
    requires
        !known(m, path),
    ensures
        removed(added(m, path), path) == m,
{
    reveal(Seq::filter);
    assert(added(m, path).drop_last() =~= m);
    lemma_remove_unknown(m, path);
}

/// Removing a path that is not registered changes nothing.
proof fn lemma_remove_unknown(m: Seq<Registered>, path: Seq<char>)
    requires
        !known(m, path),
    ensures
        removed(m, path) == m,
    decreases m.len(),
{
    reveal(Seq::filter);
    if m.len() > 0 {
        let head = m.drop_last();
        assert forall|i: int| 0 <= i < head.len() implies (#[trigger] head[i]).path != path by {
            assert(m[i].path != path);
        }
        assert(m[m.len() - 1].path != path);
        lemma_remove_unknown(head, path);
        assert(head.push(m.last()) =~= m);
    } else {
        assert(removed(m, path) =~= m);
    }
}

/// Every row of the portable apps stands for a registered exe that is live, under its own
/// path, and no path has two rows.
pub proof fn law_portable_rows_are_live_and_distinct(list: Seq<Probed>)
    ensures
        forall|i: int|
            0 <= i < portable_rows(list).len() ==> exists|k: int|
                0 <= k < list.len() && #[trigger] portable_rows(list)[i] == portable_row(
                    (#[trigger] list[k]).entry,
                    list[k].description,
                ) && live(list[k].entry.path, list[k].exists),
        forall|i: int, j: int|
            0 <= i < j < portable_rows(list).len() ==> (#[trigger] portable_rows(
                list,
            )[i]).launch_path != (#[trigger] portable_rows(list)[j]).launch_path,
    decreases list.len(),
{
    if list.len() > 0 {
        let head = list.drop_last();
        let before = portable_rows(head);
        let all = portable_rows(list);
        law_portable_rows_are_live_and_distinct(head);
        assert forall|i: int| 0 <= i < all.len() implies exists|k: int|
            0 <= k < list.len() && #[trigger] all[i] == portable_row(
                (#[trigger] list[k]).entry,
                list[k].description,
            ) && live(list[k].entry.path, list[k].exists) by {
            if i < before.len() {
                assert(all[i] == before[i]);
                let k = choose|k: int|
                    0 <= k < head.len() && before[i] == portable_row(
                        (#[trigger] head[k]).entry,
                        head[k].description,
                    ) && live(head[k].entry.path, head[k].exists);
                assert(list[k] == head[k]);
            } else {
                assert(list[list.len() - 1] == list.last());
            }
        }
        assert forall|i: int, j: int| 0 <= i < j < all.len() implies (#[trigger] all[i]).launch_path
            != (#[trigger] all[j]).launch_path by {
            assert(all[i] == before[i]);
            if j == before.len() {
                let k = choose|k: int|
                    0 <= k < head.len() && before[i] == portable_row(
                        (#[trigger] head[k]).entry,
                        head[k].description,
                    ) && live(head[k].entry.path, head[k].exists);
                assert(head[k].entry.path != list.last().entry.path);
            } else {
                assert(all[j] == before[j]);
            }
        }
    }
}

/// A registered exe that is live is in the index, by its first entry in the manifest.
pub proof fn law_live_portable_is_indexed(list: Seq<Probed>, k: int)
    requires
        0 <= k < list.len(),
        live(list[k].entry.path, list[k].exists),
        forall|j: int| 0 <= j < k ==> (#[trigger] list[j]).entry.path != list[k].entry.path,
    ensures
        portable_rows(list).contains(portable_row(list[k].entry, list[k].description)),
    decreases list.len(),
{
    let head = list.drop_last();
    let before = portable_rows(head);
    let all = portable_rows(list);
    let row = portable_row(list[k].entry, list[k].description);
    if k < head.len() {
        law_live_portable_is_indexed(head, k);
        let i = choose|i: int| 0 <= i < before.len() && before[i] == row;
        assert(all[i] == row);
    } else {
        assert forall|j: int| 0 <= j < head.len() implies (#[trigger] head[j]).entry.path
            != list[k].entry.path by {
            assert(head[j] == list[j]);
        }
        assert(all[all.len() - 1] == row);
    }
}

/// A registered exe on a local drive that is gone has no row.
pub proof fn law_missing_portable_has_no_row(list: Seq<Probed>, path: Seq<char>)
    requires
        path.len() >= 3,
        ('a' <= path[0] && path[0] <= 'z') || ('A' <= path[0] && path[0] <= 'Z'),
        path[1] == ':',
        path[2] == '\\' || path[2] == '/',
        forall|i: int| 0 <= i < path.len() ==> (#[trigger] path[i]) as int <= 0x7f,
        forall|k: int|
            0 <= k < list.len() && (#[trigger] list[k]).entry.path == path ==> !list[k].exists,
    ensures
        forall|i: int|
            0 <= i < portable_rows(list).len() ==> (#[trigger] portable_rows(list)[i]).launch_path
                != path && portable_rows(list)[i].target_path != path,
    decreases list.len(),
{
    if list.len() > 0 {
        let head = list.drop_last();
        assert forall|k: int|
            0 <= k < head.len() && (#[trigger] head[k]).entry.path == path implies
            !head[k].exists by {
            assert(head[k] == list[k]);
        }
        law_missing_portable_has_no_row(head, path);
        law_missing_local_target_is_dead(path);
        assert(list[list.len() - 1] == list.last());
    }
}

/// One more registered exe adds at most its row, at the end: it does where no entry before it
/// has its path and it is live, and only there.
pub proof fn law_one_more_portable(list: Seq<Probed>, p: Probed)
    ensures
        portable_rows(Seq::empty()).len() == 0,
        live(p.entry.path, p.exists) && (forall|k: int|
            0 <= k < list.len() ==> (#[trigger] list[k]).entry.path != p.entry.path)
            ==> portable_rows(list.push(p)) == portable_rows(list) + seq![
            portable_row(p.entry, p.description),
        ],
        !live(p.entry.path, p.exists) || (exists|k: int|
            0 <= k < list.len() && (#[trigger] list[k]).entry.path == p.entry.path)
            ==> portable_rows(list.push(p)) == portable_rows(list),
{
    assert(list.push(p).drop_last() =~= list);
    let row = portable_row(p.entry, p.description);
    assert(portable_rows(list).push(row) =~= portable_rows(list) + seq![row]);
}

/// What the row of a portable app holds: its path to launch and to tell it apart by, the
/// fixed comment, and as its name the user's alias, or else the description, or else the
/// file's own name; an empty one of the first two counts as none.
pub proof fn law_row_of_a_portable(e: Registered, description: Option<Seq<char>>, own: Seq<char>)
    requires
        stem_of(e.path) == Some(own) || (stem_of(e.path) is None && own == e.path),
    ensures
        portable_row(e, description).launch_path == e.path,
        portable_row(e, description).target_path == e.path,
        portable_row(e, description).comment == Some("便携应用"@),
        portable_row(e, description).icon is None,
        portable_row(e, description).aliases.len() == 0,
        e.name matches Some(n) ==> n.len() > 0 ==> portable_row(e, description).name == n,
        e.name matches Some(n) ==> n.len() == 0 ==> portable_row(e, description).name == own,
        e.name is None ==> description is None ==> portable_row(e, description).name == own,
        e.name is None ==> (description matches Some(d) ==> d.len() > 0 ==> portable_row(
            e,
            description,
        ).name == d),
        e.name is None ==> (description matches Some(d) ==> d.len() == 0 ==> portable_row(
            e,
            description,
        ).name == own),
{
}

/// A path is known where some entry has it, and registering one that is not known puts it
/// behind the others, without an alias.
pub proof fn law_known_and_added(m: Seq<Registered>, path: Seq<char>)
    ensures
        known(m, path) <==> m.map_values(|e: Registered| e.path).contains(path),
        (forall|i: int| 0 <= i < m.len() ==> (#[trigger] m[i]).path != path) ==> added(m, path)
            == m + seq![(Registered { path, name: None })],
        (exists|i: int| 0 <= i < m.len() && (#[trigger] m[i]).path == path) ==> added(m, path) == m,
{
    let paths = m.map_values(|e: Registered| e.path);
    if known(m, path) {
        let i = choose|i: int| 0 <= i < m.len() && (#[trigger] m[i]).path == path;
        assert(paths[i] == path);
    }
    if paths.contains(path) {
        let i = choose|i: int| 0 <= i < paths.len() && paths[i] == path;
        assert(m[i].path == path);
    }
    let e = Registered { path, name: None };
    assert(m.push(e) =~= m + seq![e]);
}

/// Removing looks at each entry by itself and keeps the order of those that stay.
pub proof fn law_remove_goes_entry_by_entry(m: Seq<Registered>, e: Registered, path: Seq<char>)
    ensures
        removed(Seq::empty(), path).len() == 0,
        e.path == path ==> removed(m + seq![e], path) == removed(m, path),
        e.path != path ==> removed(m + seq![e], path) == removed(m, path) + seq![e],
{
    reveal(Seq::filter);
    let all = m + seq![e];
    assert(all.drop_last() =~= m);
    assert(removed(m, path).push(e) =~= removed(m, path) + seq![e]);
}

/// The blocks asked for an exe's description spell the first record of the translation table
/// in eight hexadecimal digits: the language, its second byte first, then the code page
/// likewise.
pub proof fn law_blocks_of_the_first_record(table: Seq<u8>)
    ensures
        table.len() < 4 ==> description_blocks(table).len() == 0,
        table.len() >= 4 ==> {
            let blocks = description_blocks(table);
            let h = blocks[0].subrange(16, 24);
            &&& blocks.len() == 2
            &&& blocks[0] == "\\StringFileInfo\\"@ + h + "\\FileDescription"@
            &&& blocks[1] == "\\StringFileInfo\\"@ + h + "\\ProductName"@
            &&& h.len() == 8
            &&& forall|i: int|
                0 <= i < 8 ==> ('0' <= (#[trigger] h[i]) && h[i] <= '9') || ('a' <= h[i] && h[i]
                    <= 'f')
            &&& hex_value(h[0]) * 16 + hex_value(h[1]) == table[1]
            &&& hex_value(h[2]) * 16 + hex_value(h[3]) == table[0]
            &&& hex_value(h[4]) * 16 + hex_value(h[5]) == table[3]
            &&& hex_value(h[6]) * 16 + hex_value(h[7]) == table[2]
        },
{
    if table.len() >= 4 {
        reveal_strlit("\\StringFileInfo\\");
        reveal_strlit("\\");
        reveal_strlit("FileDescription");
        reveal_strlit("ProductName");
        reveal_strlit("\\FileDescription");
        reveal_strlit("\\ProductName");
        let lang = table[0] + table[1] * 256;
        let page = table[2] + table[3] * 256;
        law_hex4(lang);
        law_hex4(page);
        let blocks = description_blocks(table);
        let h = blocks[0].subrange(16, 24);
        assert(h =~= hex4(lang) + hex4(page));
        assert("\\"@ + "FileDescription"@ =~= "\\FileDescription"@);
        assert("\\"@ + "ProductName"@ =~= "\\ProductName"@);
        assert(blocks[0] =~= "\\StringFileInfo\\"@ + h + "\\FileDescription"@);
        assert(blocks[1] =~= "\\StringFileInfo\\"@ + h + "\\ProductName"@);
        lemma_two_bytes(hex4(lang), table[0] as int, table[1] as int);
        lemma_two_bytes(hex4(page), table[2] as int, table[3] as int);
        assert forall|i: int| 0 <= i < 8 implies ('0' <= (#[trigger] h[i]) && h[i] <= '9') || ('a'
            <= h[i] && h[i] <= 'f') by {
            if i < 4 {
                assert(h[i] == hex4(lang)[i]);
            } else {
                assert(h[i] == hex4(page)[i - 4]);
            }
        }
    }
}

proof fn lemma_two_bytes(h: Seq<char>, low: int, high: int)
    requires
        h.len() == 4,
        forall|i: int|
            0 <= i < 4 ==> ('0' <= (#[trigger] h[i]) && h[i] <= '9') || ('a' <= h[i] && h[i]
                <= 'f'),
        hex_value(h[0]) * 4096 + hex_value(h[1]) * 256 + hex_value(h[2]) * 16 + hex_value(h[3])
            == low + high * 256,
        0 <= low < 256,
        0 <= high < 256,
    ensures
        hex_value(h[0]) * 16 + hex_value(h[1]) == high,
        hex_value(h[2]) * 16 + hex_value(h[3]) == low,
{
    assert(0 <= hex_value(h[0]) < 16 && 0 <= hex_value(h[1]) < 16);
    assert(0 <= hex_value(h[2]) < 16 && 0 <= hex_value(h[3]) < 16);
}

/// The description is the first answer with a text in it: the one at `i`, where those before
/// it are missing or blank.
pub proof fn law_first_answer_wins(answers: Seq<Option<Seq<u16>>>, i: int)
    requires
        0 <= i <= answers.len(),
        forall|j: int|
            0 <= j < i ==> (#[trigger] answers[j] is None || wide_text(answers[j]->0) is None),
        i < answers.len() ==> answers[i] is Some && wide_text(answers[i]->0) is Some,
    ensures
        i < answers.len() ==> first_text(answers) == wide_text(answers[i]->0),
        i == answers.len() ==> first_text(answers) is None,
    decreases i,
{
    if i > 0 {
        let tail = answers.drop_first();
        assert(answers[0] is None || wide_text(answers[0]->0) is None);
        assert forall|j: int| 0 <= j < i - 1 implies (#[trigger] tail[j] is None || wide_text(
            tail[j]->0,
        ) is None) by {
            assert(tail[j] == answers[j + 1]);
        }
        law_first_answer_wins(tail, i - 1);
    }
}

} // verus!
