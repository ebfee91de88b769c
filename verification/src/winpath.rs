//! Windows paths as text: prefix, root, components, file name, extension and parent.
//!
//! The launcher's paths are Windows paths whatever machine the code is built on, so
//! they are taken apart here, by the rules Windows itself goes by, and not by the
//! host's `std::path`.

use crate::text::{
    ascii_lower_all, chars_of, eq_ignore_ascii_case, law_same_but_for_case, text_between, text_eq,
    view_opt, views,
};
use vstd::prelude::*;

verus! {

/// The kinds of prefix that a Windows path can begin with.
#[derive(Clone, Copy, PartialEq, Eq, Structural, Debug)]
pub enum PrefixKind {
    /// No prefix: a relative path, or one rooted on the current drive.
    Bare,
    /// `C:`
    Disk,
    /// `\\server\share`
    Unc,
    /// `\\.\device`
    Device,
    /// `\\?\name`
    Verbatim,
    /// `\\?\C:`
    VerbatimDisk,
    /// `\\?\UNC\server\share`
    VerbatimUnc,
}

/// Both slashes separate components.
pub open spec fn is_sep(c: char) -> bool {
    c == '\\' || c == '/'
}

/// In a verbatim path only the backslash separates components.
pub open spec fn is_sep_in(c: char, verbatim: bool) -> bool {
    c == '\\' || (c == '/' && !verbatim)
}

pub open spec fn is_drive_letter(c: char) -> bool {
    ('a' <= c && c <= 'z') || ('A' <= c && c <= 'Z')
}

/// The place of the first separator at or after `from`, or the end of the path.
pub open spec fn next_sep(p: Seq<char>, from: int, verbatim: bool) -> int
    decreases p.len() - from,
{
    if from >= p.len() || is_sep_in(p[from], verbatim) {
        from
    } else {
        next_sep(p, from + 1, verbatim)
    }
}

/// What kind of prefix `p` begins with.
pub open spec fn prefix_kind(p: Seq<char>) -> PrefixKind {
    if p.len() >= 2 && is_sep(p[0]) && is_sep(p[1]) {
        if p.len() >= 4 && p[0] == '\\' && p[1] == '\\' && p[2] == '?' && p[3] == '\\' {
            if p.len() >= 8 && p[4] == 'U' && p[5] == 'N' && p[6] == 'C' && is_sep(p[7]) {
                PrefixKind::VerbatimUnc
            } else if p.len() >= 6 && is_drive_letter(p[4]) && p[5] == ':' && (p.len() == 6
                || is_sep(p[6])) {
                PrefixKind::VerbatimDisk
            } else {
                PrefixKind::Verbatim
            }
        } else if p.len() >= 4 && p[2] == '.' && is_sep(p[3]) {
            PrefixKind::Device
        } else {
            let server_end = next_sep(p, 2, false);
            if server_end > 2 && server_end < p.len() && next_sep(p, server_end + 1, false)
                > server_end + 1 {
                PrefixKind::Unc
            } else {
                PrefixKind::Bare
            }
        }
    } else if p.len() >= 2 && is_drive_letter(p[0]) && p[1] == ':' {
        PrefixKind::Disk
    } else {
        PrefixKind::Bare
    }
}

/// The end of a server and share that begin at `from`: of the server alone where the
/// share is empty.
pub open spec fn share_end(p: Seq<char>, from: int, verbatim: bool) -> int {
    let server_end = next_sep(p, from, verbatim);
    if server_end < p.len() && next_sep(p, server_end + 1, verbatim) > server_end + 1 {
        next_sep(p, server_end + 1, verbatim)
    } else {
        server_end
    }
}

/// How many characters the prefix takes.
pub open spec fn prefix_len(p: Seq<char>) -> int {
    match prefix_kind(p) {
        PrefixKind::Bare => 0,
        PrefixKind::Disk => 2,
        PrefixKind::Unc => share_end(p, 2, false),
        PrefixKind::Device => next_sep(p, 4, false),
        PrefixKind::Verbatim => next_sep(p, 4, true),
        PrefixKind::VerbatimDisk => 6,
        PrefixKind::VerbatimUnc => share_end(p, 8, true),
    }
}

pub open spec fn is_verbatim(kind: PrefixKind) -> bool {
    kind is Verbatim || kind is VerbatimDisk || kind is VerbatimUnc
}

/// A separator stands right behind the prefix.
pub open spec fn has_root_sep(p: Seq<char>) -> bool {
    prefix_len(p) < p.len() && is_sep(p[prefix_len(p)])
}

/// Every prefix but a drive letter brings a root of its own.
pub open spec fn has_root(p: Seq<char>) -> bool {
    has_root_sep(p) || !(prefix_kind(p) is Bare || prefix_kind(p) is Disk)
}

/// The path names the same place whatever the current drive and folder are.
pub open spec fn is_absolute(p: Seq<char>) -> bool {
    !(prefix_kind(p) is Bare) && has_root(p)
}

/// The path begins, behind its prefix, with a `.`.
pub open spec fn has_cur_dir(p: Seq<char>) -> bool {
    let n = prefix_len(p);
    !has_root(p) && n < p.len() && p[n] == '.' && (n + 1 == p.len() || is_sep(p[n + 1]))
}

/// The first component is a `.`. Behind a drive letter the `.` is passed over, and is not a
/// component.
pub open spec fn starts_at_cur_dir(p: Seq<char>) -> bool {
    prefix_kind(p) is Bare && has_cur_dir(p)
}

/// Where the components behind prefix, root and leading `.` begin.
pub open spec fn body_start(p: Seq<char>) -> int {
    prefix_len(p) + if has_root_sep(p) || has_cur_dir(p) {
        1int
    } else {
        0
    }
}

/// The place behind the last separator of `p[lo..hi]`, or `lo` where there is none.
pub open spec fn last_start(p: Seq<char>, lo: int, hi: int, verbatim: bool) -> int
    decreases hi - lo,
{
    if hi <= lo {
        lo
    } else if is_sep_in(p[hi - 1], verbatim) {
        hi
    } else {
        last_start(p, lo, hi - 1, verbatim)
    }
}

/// Where the text before the component that begins at `start` ends.
pub open spec fn before_start(lo: int, start: int) -> int {
    if start > lo {
        start - 1
    } else {
        lo
    }
}

/// An empty component, or a `.` outside a verbatim path, says nothing.
pub open spec fn says_nothing(c: Seq<char>, verbatim: bool) -> bool {
    c.len() == 0 || (c =~= seq!['.'] && !verbatim)
}

/// The components of `p[lo..hi]` that say something.
pub open spec fn parts_in(p: Seq<char>, lo: int, hi: int, verbatim: bool) -> Seq<Seq<char>>
    decreases hi - lo,
    when 0 <= lo <= hi <= p.len()
    via parts_in_decreases
{
    if hi <= lo {
        Seq::empty()
    } else {
        let start = last_start(p, lo, hi, verbatim);
        let rest = parts_in(p, lo, before_start(lo, start), verbatim);
        let c = p.subrange(start, hi);
        if says_nothing(c, verbatim) {
            rest
        } else {
            rest.push(c)
        }
    }
}

#[via_fn]
proof fn parts_in_decreases(p: Seq<char>, lo: int, hi: int, verbatim: bool) {
    lemma_last_start(p, lo, hi, verbatim);
}

proof fn lemma_last_start(p: Seq<char>, lo: int, hi: int, verbatim: bool)
    requires
        lo <= hi,
    ensures
        lo <= last_start(p, lo, hi, verbatim) <= hi,
        last_start(p, lo, hi, verbatim) == hi && hi > lo ==> is_sep_in(p[hi - 1], verbatim),
    decreases hi - lo,
{
    if hi > lo && !is_sep_in(p[hi - 1], verbatim) {
        lemma_last_start(p, lo, hi - 1, verbatim);
    }
}

/// The end of the last component of `p[lo..hi]` that says something, or `lo`.
pub open spec fn last_end(p: Seq<char>, lo: int, hi: int, verbatim: bool) -> int
    decreases hi - lo,
    when 0 <= lo <= hi <= p.len()
    via last_end_decreases
{
    if hi <= lo {
        lo
    } else {
        let start = last_start(p, lo, hi, verbatim);
        if says_nothing(p.subrange(start, hi), verbatim) {
            last_end(p, lo, before_start(lo, start), verbatim)
        } else {
            hi
        }
    }
}

#[via_fn]
proof fn last_end_decreases(p: Seq<char>, lo: int, hi: int, verbatim: bool) {
    lemma_last_start(p, lo, hi, verbatim);
}

/// The last component, where it is the name of a file or folder.
pub open spec fn file_name_of(p: Seq<char>) -> Option<Seq<char>> {
    let verbatim = is_verbatim(prefix_kind(p));
    let lo = body_start(p);
    let hi = last_end(p, lo, p.len() as int, verbatim);
    let c = p.subrange(last_start(p, lo, hi, verbatim), hi);
    if hi <= lo || c =~= seq!['.'] || c =~= seq!['.', '.'] {
        None
    } else {
        Some(c)
    }
}

/// The path without its last component; `None` for a bare root or prefix.
pub open spec fn parent_of(p: Seq<char>) -> Option<Seq<char>> {
    let verbatim = is_verbatim(prefix_kind(p));
    let lo = body_start(p);
    let hi = last_end(p, lo, p.len() as int, verbatim);
    if hi > lo {
        let before = before_start(lo, last_start(p, lo, hi, verbatim));
        Some(p.take(last_end(p, lo, before, verbatim)))
    } else if starts_at_cur_dir(p) {
        Some(p.take(lo - 1))
    } else {
        None
    }
}

/// The place of the last dot, or -1.
pub open spec fn last_dot(name: Seq<char>) -> int
    decreases name.len(),
{
    if name.len() == 0 {
        -1
    } else if name.last() == '.' {
        name.len() - 1
    } else {
        last_dot(name.drop_last())
    }
}

/// The place of the dot before the extension: none in a name without a dot, nor in one
/// whose only dot comes first.
pub open spec fn extension_dot(name: Seq<char>) -> Option<int> {
    if last_dot(name) > 0 {
        Some(last_dot(name))
    } else {
        None
    }
}

/// The file name without its extension.
pub open spec fn stem_of(p: Seq<char>) -> Option<Seq<char>> {
    match file_name_of(p) {
        Some(name) => match extension_dot(name) {
            Some(d) => Some(name.take(d)),
            None => Some(name),
        },
        None => None,
    }
}

/// What stands behind the last dot of the file name.
pub open spec fn extension_of(p: Seq<char>) -> Option<Seq<char>> {
    match file_name_of(p) {
        Some(name) => match extension_dot(name) {
            Some(d) => Some(name.skip(d + 1)),
            None => None,
        },
        None => None,
    }
}

/// Two paths that name the same prefix, root and components are the same path,
/// whichever slashes they are written with.
pub open spec fn same_path(p: Seq<char>, q: Seq<char>) -> bool {
    &&& prefix_kind(p) == prefix_kind(q)
    &&& prefix_name(p) == prefix_name(q)
    &&& starts_at_root(p) == starts_at_root(q)
    &&& starts_at_cur_dir(p) == starts_at_cur_dir(q)
    &&& parts_of(p) == parts_of(q)
}

/// The first component behind the prefix is the root.
pub open spec fn starts_at_root(p: Seq<char>) -> bool {
    has_root_sep(p) || prefix_kind(p) is Unc || prefix_kind(p) is Device
}

/// Where a prefix of more than a drive letter begins to name something.
pub open spec fn name_start(kind: PrefixKind) -> int {
    match kind {
        PrefixKind::Unc => 2,
        PrefixKind::Device => 4,
        PrefixKind::Verbatim => 4,
        PrefixKind::VerbatimUnc => 8,
        _ => 0,
    }
}

/// What the prefix names: drive letters in capitals, server and share with a backslash
/// between them.
pub open spec fn prefix_name(p: Seq<char>) -> Seq<char> {
    let end = prefix_len(p);
    match prefix_kind(p) {
        PrefixKind::Bare => Seq::empty(),
        PrefixKind::Disk => seq![drive_capital(p[0])],
        PrefixKind::VerbatimDisk => seq![drive_capital(p[4])],
        PrefixKind::Unc => Seq::new((end - 2) as nat, |i: int| backslashed(p[i + 2])),
        kind => p.subrange(name_start(kind), end),
    }
}

pub open spec fn drive_capital(c: char) -> char {
    if 'a' <= c && c <= 'z' {
        ((c as u8) - 32) as char
    } else {
        c
    }
}

pub open spec fn backslashed(c: char) -> char {
    if c == '/' {
        '\\'
    } else {
        c
    }
}

/// The components behind prefix, root and leading `.`.
pub open spec fn parts_of(p: Seq<char>) -> Seq<Seq<char>> {
    parts_in(p, body_start(p), p.len() as int, is_verbatim(prefix_kind(p)))
}

fn sep(c: char) -> (r: bool)
    ensures
        r == is_sep(c),
{
    c == '\\' || c == '/'
}

fn drive_letter(c: char) -> (r: bool)
    ensures
        r == is_drive_letter(c),
{
    ('a' <= c && c <= 'z') || ('A' <= c && c <= 'Z')
}

fn find_sep(p: &Vec<char>, from: usize, verbatim: bool) -> (r: usize)
    requires
        from <= p@.len(),
    ensures
        r == next_sep(p@, from as int, verbatim),
        from <= r <= p@.len(),
{
    let mut i: usize = from;
    while i < p.len() && !(p[i] == '\\' || (p[i] == '/' && !verbatim))
        invariant
            from <= i <= p@.len(),
            next_sep(p@, from as int, verbatim) == next_sep(p@, i as int, verbatim),
        decreases p.len() - i,
    {
        i += 1;
    }
    i
}

fn find_share_end(p: &Vec<char>, from: usize, verbatim: bool) -> (r: usize)
    requires
        from <= p@.len(),
    ensures
        r == share_end(p@, from as int, verbatim),
        from <= r <= p@.len(),
{
    let server_end: usize = find_sep(p, from, verbatim);
    if server_end < p.len() {
        let end: usize = find_sep(p, server_end + 1, verbatim);
        if end > server_end + 1 {
            return end;
        }
    }
    server_end
}

/// The kind of the prefix and its length.
fn parse_prefix(p: &Vec<char>) -> (r: (PrefixKind, usize))
    ensures
        r.0 == prefix_kind(p@),
        r.1 == prefix_len(p@),
        name_start(r.0) <= r.1 <= p@.len(),
{
    if p.len() >= 2 && sep(p[0]) && sep(p[1]) {
        if p.len() >= 4 && p[0] == '\\' && p[1] == '\\' && p[2] == '?' && p[3] == '\\' {
            if p.len() >= 8 && p[4] == 'U' && p[5] == 'N' && p[6] == 'C' && sep(p[7]) {
                (PrefixKind::VerbatimUnc, find_share_end(p, 8, true))
            } else if p.len() >= 6 && drive_letter(p[4]) && p[5] == ':' && (p.len() == 6 || sep(
                p[6],
            )) {
                (PrefixKind::VerbatimDisk, 6)
            } else {
                (PrefixKind::Verbatim, find_sep(p, 4, true))
            }
        } else if p.len() >= 4 && p[2] == '.' && sep(p[3]) {
            (PrefixKind::Device, find_sep(p, 4, false))
        } else {
            let server_end: usize = find_sep(p, 2, false);
            if server_end > 2 && server_end < p.len() {
                let end: usize = find_sep(p, server_end + 1, false);
                if end > server_end + 1 {
                    return (PrefixKind::Unc, end);
                }
            }
            (PrefixKind::Bare, 0)
        }
    } else if p.len() >= 2 && drive_letter(p[0]) && p[1] == ':' {
        (PrefixKind::Disk, 2)
    } else {
        (PrefixKind::Bare, 0)
    }
}

/// What stands before the components of a path.
struct Head {
    kind: PrefixKind,
    prefix: usize,
    root_sep: bool,
    cur_dir: bool,
    start: usize,
}

impl Head {
    spec fn of(self, p: Seq<char>) -> bool {
        &&& self.kind == prefix_kind(p)
        &&& self.prefix == prefix_len(p)
        &&& self.root_sep == has_root_sep(p)
        &&& self.cur_dir == has_cur_dir(p)
        &&& self.start == body_start(p)
        &&& self.prefix <= self.start <= p.len()
    }
}

fn parse_head(p: &Vec<char>) -> (r: Head)
    ensures
        r.of(p@),
{
    let (kind, prefix) = parse_prefix(p);
    let root_sep = prefix < p.len() && sep(p[prefix]);
    let rooted = root_sep || !(kind == PrefixKind::Bare || kind == PrefixKind::Disk);
    let cur_dir = !rooted && prefix < p.len() && p[prefix] == '.' && (prefix + 1 == p.len() || sep(
        p[prefix + 1],
    ));
    let start: usize = if root_sep || cur_dir {
        prefix + 1
    } else {
        prefix
    };
    Head { kind, prefix, root_sep, cur_dir, start }
}

fn verbatim_kind(kind: PrefixKind) -> (r: bool)
    ensures
        r == is_verbatim(kind),
{
    kind == PrefixKind::Verbatim || kind == PrefixKind::VerbatimDisk || kind
        == PrefixKind::VerbatimUnc
}

fn find_last_start(p: &Vec<char>, lo: usize, hi: usize, verbatim: bool) -> (r: usize)
    requires
        lo <= hi <= p@.len(),
    ensures
        r == last_start(p@, lo as int, hi as int, verbatim),
        lo <= r <= hi,
{
    let mut i: usize = hi;
    while i > lo && !(p[i - 1] == '\\' || (p[i - 1] == '/' && !verbatim))
        invariant
            lo <= i <= hi <= p@.len(),
            last_start(p@, lo as int, hi as int, verbatim) == last_start(
                p@,
                lo as int,
                i as int,
                verbatim,
            ),
        decreases i,
    {
        i -= 1;
    }
    i
}

fn nothing_said(p: &Vec<char>, start: usize, hi: usize, verbatim: bool) -> (r: bool)
    requires
        start <= hi <= p@.len(),
    ensures
        r == says_nothing(p@.subrange(start as int, hi as int), verbatim),
{
    let ghost c = p@.subrange(start as int, hi as int);
    if start == hi {
        return true;
    }
    let dot = hi - start == 1 && p[start] == '.';
    assert(dot == (c =~= seq!['.'])) by {
        if c =~= seq!['.'] {
            assert(c[0] == '.');
            assert(c.len() == 1);
        }
    }
    dot && !verbatim
}

fn find_last_end(p: &Vec<char>, lo: usize, hi: usize, verbatim: bool) -> (r: usize)
    requires
        lo <= hi <= p@.len(),
    ensures
        r == last_end(p@, lo as int, hi as int, verbatim),
        lo <= r <= hi,
{
    let mut end: usize = hi;
    while end > lo
        invariant
            lo <= end <= hi <= p@.len(),
            last_end(p@, lo as int, hi as int, verbatim) == last_end(
                p@,
                lo as int,
                end as int,
                verbatim,
            ),
        decreases end,
    {
        let start: usize = find_last_start(p, lo, end, verbatim);
        if !nothing_said(p, start, end, verbatim) {
            return end;
        }
        proof {
            lemma_last_start(p@, lo as int, end as int, verbatim);
        }
        end = if start > lo {
            start - 1
        } else {
            lo
        };
    }
    end
}

/// The last component of a path, where it is the name of a file or folder.
pub fn file_name(path: &str) -> (r: Option<String>)
    ensures
        view_opt(r) == file_name_of(path@),
{
    let p = chars_of(path);
    let head = parse_head(&p);
    let verbatim = verbatim_kind(head.kind);
    let hi: usize = find_last_end(&p, head.start, p.len(), verbatim);
    if hi <= head.start {
        return None;
    }
    let start: usize = find_last_start(&p, head.start, hi, verbatim);
    let name = text_between(&p, start, hi);
    proof {
        reveal_strlit(".");
        reveal_strlit("..");
        assert("."@ =~= seq!['.']);
        assert(".."@ =~= seq!['.', '.']);
    }
    if text_eq(name.as_str(), ".") || text_eq(name.as_str(), "..") {
        return None;
    }
    Some(name)
}

/// The last dot of `name`, where it has an extension.
fn find_extension_dot(name: &Vec<char>) -> (r: Option<usize>)
    ensures
        match r {
            Some(d) => extension_dot(name@) == Some(d as int) && 0 < d < name@.len(),
            None => extension_dot(name@) is None,
        },
{
    let mut i: usize = name.len();
    assert(name@.take(name@.len() as int) =~= name@);
    while i > 0
        invariant
            i <= name@.len(),
            last_dot(name@) == last_dot(name@.take(i as int)),
        decreases i,
    {
        assert(name@.take(i as int).drop_last() =~= name@.take(i - 1));
        if name[i - 1] == '.' {
            return if i > 1 {
                Some(i - 1)
            } else {
                None
            };
        }
        i -= 1;
    }
    None
}

/// The file name of a path without its extension.
pub fn stem(path: &str) -> (r: Option<String>)
    ensures
        view_opt(r) == stem_of(path@),
{
    match file_name(path) {
        Some(name) => {
            let chars = chars_of(name.as_str());
            match find_extension_dot(&chars) {
                Some(d) => {
                    assert(chars@.subrange(0, d as int) =~= chars@.take(d as int));
                    Some(text_between(&chars, 0, d))
                },
                None => Some(name),
            }
        },
        None => None,
    }
}

/// The extension of the file name of a path.
pub fn extension(path: &str) -> (r: Option<String>)
    ensures
        view_opt(r) == extension_of(path@),
{
    match file_name(path) {
        Some(name) => {
            let chars = chars_of(name.as_str());
            match find_extension_dot(&chars) {
                Some(d) => {
                    let end: usize = chars.len();
                    assert(chars@.subrange(d + 1, end as int) =~= chars@.skip(d + 1));
                    Some(text_between(&chars, d + 1, end))
                },
                None => None,
            }
        },
        None => None,
    }
}

/// The path without its last component.
pub fn parent(path: &str) -> (r: Option<String>)
    ensures
        view_opt(r) == parent_of(path@),
{
    let p = chars_of(path);
    let head = parse_head(&p);
    let verbatim = verbatim_kind(head.kind);
    let lo: usize = head.start;
    let hi: usize = find_last_end(&p, lo, p.len(), verbatim);
    if hi > lo {
        let start: usize = find_last_start(&p, lo, hi, verbatim);
        let before: usize = if start > lo {
            start - 1
        } else {
            lo
        };
        let end: usize = find_last_end(&p, lo, before, verbatim);
        assert(p@.subrange(0, end as int) =~= p@.take(end as int));
        Some(text_between(&p, 0, end))
    } else if head.cur_dir && head.kind == PrefixKind::Bare {
        assert(p@.subrange(0, lo - 1) =~= p@.take(lo - 1));
        Some(text_between(&p, 0, lo - 1))
    } else {
        None
    }
}

/// Whether the path names the same place whatever the current drive and folder are.
pub fn absolute(path: &str) -> (r: bool)
    ensures
        r == is_absolute(path@),
{
    let p = chars_of(path);
    let head = parse_head(&p);
    head.kind != PrefixKind::Bare && (head.root_sep || head.kind != PrefixKind::Disk)
}

/// The component is the name of a file or folder.
pub open spec fn is_named(c: Seq<char>) -> bool {
    c != seq!['.'] && c != seq!['.', '.']
}

/// The components with those of a relative path behind them; a `..` takes back the named
/// component before it.
pub open spec fn folded(parts: Seq<Seq<char>>, more: Seq<Seq<char>>) -> Seq<Seq<char>>
    decreases more.len(),
{
    if more.len() == 0 {
        parts
    } else {
        let before = folded(parts, more.drop_last());
        if more.last() != seq!['.', '.'] {
            before.push(more.last())
        } else if before.len() > 0 && is_named(before.last()) {
            before.drop_last()
        } else {
            before
        }
    }
}

/// The components, each behind a backslash.
pub open spec fn spelled(parts: Seq<Seq<char>>) -> Seq<char>
    decreases parts.len(),
{
    if parts.len() == 0 {
        Seq::empty()
    } else {
        spelled(parts.drop_last()).push('\\') + parts.last()
    }
}

/// `name` under the verbatim folder `dir`. Nothing resolves such a path later on, so its
/// components are resolved here.
pub open spec fn joined_verbatim(dir: Seq<char>, name: Seq<char>) -> Seq<char> {
    let start = if has_root(name) {
        Seq::empty()
    } else {
        parts_of(dir)
    };
    let parts = folded(start, parts_of(name));
    let tail = if parts.len() == 0 && (has_root(name) || has_root_sep(dir)) {
        seq!['\\']
    } else {
        spelled(parts)
    };
    dir.take(prefix_len(dir)) + tail
}

/// `name` under the folder `dir`: a name with a prefix of its own stands alone, a rooted
/// one keeps only the prefix of `dir`, and any other comes behind a backslash, unless
/// `dir` is empty, ends in a separator or is a bare drive letter. Both stay as they are
/// spelled, but for a verbatim `dir`.
pub open spec fn joined(dir: Seq<char>, name: Seq<char>) -> Seq<char> {
    if !(prefix_kind(name) is Bare) {
        name
    } else if is_verbatim(prefix_kind(dir)) && name.len() > 0 {
        joined_verbatim(dir, name)
    } else if has_root(name) {
        dir.take(prefix_len(dir)) + name
    } else if dir.len() == 0 || is_sep(dir.last()) || (prefix_kind(dir) is Disk && dir.len() == 2) {
        dir + name
    } else {
        dir.push('\\') + name
    }
}

/// Whether the component is `..`.
fn is_parent(c: &String) -> (r: bool)
    ensures
        r == (c@ == seq!['.', '.']),
{
    proof {
        reveal_strlit("..");
        assert(".."@ =~= seq!['.', '.']);
    }
    text_eq(c.as_str(), "..")
}

/// Whether the component is the name of a file or folder.
fn names_something(c: &String) -> (r: bool)
    ensures
        r == is_named(c@),
{
    proof {
        reveal_strlit(".");
        assert("."@ =~= seq!['.']);
    }
    !text_eq(c.as_str(), ".") && !is_parent(c)
}

/// The components with those of a relative path behind them.
fn fold_parts(parts: Vec<String>, more: &Vec<String>) -> (r: Vec<String>)
    ensures
        views(r@) == folded(views(parts@), views(more@)),
{
    let ghost start = views(parts@);
    let ghost all = views(more@);
    let mut out = parts;
    let mut i: usize = 0;
    assert(folded(start, all.take(0)) == start);
    while i < more.len()
        invariant
            all == views(more@),
            i <= more@.len(),
            views(out@) == folded(start, all.take(i as int)),
        decreases more.len() - i,
    {
        let ghost before = views(out@);
        assert(all.take(i + 1).drop_last() =~= all.take(i as int));
        assert(all.take(i + 1).last() == more@[i as int]@);
        if !is_parent(&more[i]) {
            out.push(more[i].clone());
            assert(views(out@) =~= before.push(all[i as int]));
        } else if out.len() > 0 && names_something(&out[out.len() - 1]) {
            let _ = out.pop();
            assert(views(out@) =~= before.drop_last());
        }
        i += 1;
    }
    assert(all.take(all.len() as int) =~= all);
    out
}

/// Appends the components, each behind a backslash.
fn push_parts(out: &mut String, parts: &Vec<String>)
    ensures
        final(out)@ == old(out)@ + spelled(views(parts@)),
{
    let ghost start = out@;
    let ghost all = views(parts@);
    let mut i: usize = 0;
    assert(out@ =~= start + spelled(all.take(0)));
    while i < parts.len()
        invariant
            all == views(parts@),
            i <= parts@.len(),
            out@ == start + spelled(all.take(i as int)),
        decreases parts.len() - i,
    {
        assert(all.take(i + 1).drop_last() =~= all.take(i as int));
        assert(all.take(i + 1).last() == parts@[i as int]@);
        out.push('\\');
        out.append(parts[i].as_str());
        i += 1;
        assert(out@ =~= start + spelled(all.take(i as int)));
    }
    assert(all.take(all.len() as int) =~= all);
}

/// `name`, which is not empty and has no prefix, under the verbatim folder `dir`.
fn join_verbatim(dir: &Vec<char>, name: &Vec<char>) -> (r: String)
    requires
        is_verbatim(prefix_kind(dir@)),
        prefix_kind(name@) is Bare,
    ensures
        r@ == joined_verbatim(dir@, name@),
{
    let d = parse_head(dir);
    let n = parse_head(name);
    let start = if n.root_sep {
        let none: Vec<String> = Vec::new();
        assert(views(none@) =~= Seq::empty());
        none
    } else {
        collect_parts(dir, d.start, dir.len(), true)
    };
    let parts = fold_parts(start, &collect_parts(name, n.start, name.len(), false));
    assert(views(parts@).len() == parts@.len());
    let mut out = text_between(dir, 0, d.prefix);
    assert(dir@.subrange(0, d.prefix as int) =~= dir@.take(d.prefix as int));
    if parts.len() == 0 && (n.root_sep || d.root_sep) {
        out.push('\\');
        assert(out@ =~= joined_verbatim(dir@, name@));
    } else {
        push_parts(&mut out, &parts);
    }
    out
}

/// `name` under the folder `dir`.
pub fn join(dir: &str, name: &str) -> (r: String)
    ensures
        r@ == joined(dir@, name@),
{
    let d = chars_of(dir);
    let n = chars_of(name);
    let head = parse_head(&n);
    if head.kind != PrefixKind::Bare {
        return name.to_owned();
    }
    let (kind, prefix) = parse_prefix(&d);
    if verbatim_kind(kind) && n.len() > 0 {
        return join_verbatim(&d, &n);
    }
    if head.root_sep {
        let mut out = text_between(&d, 0, prefix);
        assert(d@.subrange(0, prefix as int) =~= d@.take(prefix as int));
        out.append(name);
        return out;
    }
    let mut out = dir.to_owned();
    let glued = d.len() == 0 || sep(d[d.len() - 1]) || (kind == PrefixKind::Disk && d.len() == 2);
    if !glued {
        out.push('\\');
    }
    out.append(name);
    out
}

/// Whether the path's extension is `ext`, in whatever case of letters.
pub open spec fn has_extension(p: Seq<char>, ext: Seq<char>) -> bool {
    extension_of(p) matches Some(e) && ascii_lower_all(e) == ascii_lower_all(ext)
}

/// Whether the path's extension is `ext`, in whatever case of letters.
pub fn extension_is(path: &str, ext: &str) -> (r: bool)
    ensures
        r == has_extension(path@, ext@),
{
    match extension(path) {
        Some(e) => eq_ignore_ascii_case(e.as_str(), ext),
        None => false,
    }
}

/// The components of a path behind prefix, root and leading `.`.
fn collect_parts(p: &Vec<char>, lo: usize, hi: usize, verbatim: bool) -> (r: Vec<String>)
    requires
        lo <= hi <= p@.len(),
    ensures
        views(r@) == parts_in(p@, lo as int, hi as int, verbatim),
    decreases hi,
{
    if hi <= lo {
        let none: Vec<String> = Vec::new();
        assert(views(none@) =~= Seq::empty());
        return none;
    }
    let start: usize = find_last_start(p, lo, hi, verbatim);
    let before: usize = if start > lo {
        start - 1
    } else {
        lo
    };
    let mut out = collect_parts(p, lo, before, verbatim);
    if !nothing_said(p, start, hi, verbatim) {
        let ghost rest = views(out@);
        out.push(text_between(p, start, hi));
        assert(views(out@) =~= rest.push(p@.subrange(start as int, hi as int)));
    }
    out
}

fn capital(c: char) -> (r: char)
    ensures
        r == drive_capital(c),
{
    if 'a' <= c && c <= 'z' {
        ((c as u8) - 32) as char
    } else {
        c
    }
}

/// What the prefix of `p` names.
fn name_prefix(p: &Vec<char>) -> (r: Vec<char>)
    ensures
        r@ == prefix_name(p@),
{
    let (kind, end) = parse_prefix(p);
    let mut out: Vec<char> = Vec::new();
    if kind == PrefixKind::Bare {
        return out;
    }
    if kind == PrefixKind::Disk {
        out.push(capital(p[0]));
        assert(out@ =~= prefix_name(p@));
        return out;
    }
    if kind == PrefixKind::VerbatimDisk {
        out.push(capital(p[4]));
        assert(out@ =~= prefix_name(p@));
        return out;
    }
    let unc = kind == PrefixKind::Unc;
    let from: usize = if unc {
        2
    } else if kind == PrefixKind::VerbatimUnc {
        8
    } else {
        4
    };
    let mut i: usize = from;
    while i < end
        invariant
            from <= i <= end <= p@.len(),
            out@.len() == i - from,
            forall|j: int|
                0 <= j < i - from ==> out@[j] == if unc {
                    backslashed(p@[j + from])
                } else {
                    p@[j + from]
                },
        decreases end - i,
    {
        if unc && p[i] == '/' {
            out.push('\\');
        } else {
            out.push(p[i]);
        }
        i += 1;
    }
    assert(out@ =~= prefix_name(p@));
    out
}

fn same_chars(a: &Vec<char>, b: &Vec<char>) -> (r: bool)
    ensures
        r == (a@ == b@),
{
    let mut i: usize = 0;
    if a.len() != b.len() {
        return false;
    }
    while i < a.len()
        invariant
            a@.len() == b@.len(),
            i <= a@.len(),
            forall|j: int| 0 <= j < i ==> a@[j] == b@[j],
        decreases a.len() - i,
    {
        if a[i] != b[i] {
            return false;
        }
        i += 1;
    }
    assert(a@ =~= b@);
    true
}

fn same_texts(a: &Vec<String>, b: &Vec<String>) -> (r: bool)
    ensures
        r == (views(a@) == views(b@)),
{
    if a.len() != b.len() {
        assert(views(a@).len() != views(b@).len());
        return false;
    }
    let mut i: usize = 0;
    while i < a.len()
        invariant
            a@.len() == b@.len(),
            i <= a@.len(),
            forall|j: int| 0 <= j < i ==> views(a@)[j] == views(b@)[j],
        decreases a.len() - i,
    {
        if !text_eq(a[i].as_str(), b[i].as_str()) {
            assert(views(a@)[i as int] != views(b@)[i as int]);
            return false;
        }
        i += 1;
    }
    assert(views(a@) =~= views(b@));
    true
}

/// Whether two paths name the same prefix, root and components.
pub fn paths_equal(path: &str, other: &str) -> (r: bool)
    ensures
        r == same_path(path@, other@),
{
    let p = chars_of(path);
    let q = chars_of(other);
    let hp = parse_head(&p);
    let hq = parse_head(&q);
    if hp.kind != hq.kind {
        return false;
    }
    if hp.kind == PrefixKind::Bare && hp.cur_dir != hq.cur_dir {
        return false;
    }
    let always = hp.kind == PrefixKind::Unc || hp.kind == PrefixKind::Device;
    if !always && hp.root_sep != hq.root_sep {
        return false;
    }
    if !same_chars(&name_prefix(&p), &name_prefix(&q)) {
        return false;
    }
    let verbatim = verbatim_kind(hp.kind);
    let a = collect_parts(&p, hp.start, p.len(), verbatim);
    let b = collect_parts(&q, hq.start, q.len(), verbatim);
    same_texts(&a, &b)
}

/// The path begins with a drive letter and a root, like `C:\`.
pub open spec fn on_drive(p: Seq<char>) -> bool {
    p.len() >= 3 && is_drive_letter(p[0]) && p[1] == ':' && is_sep(p[2])
}

/// The text can be the name of a file or folder: it is not empty, holds no separator, and is
/// neither `.` nor `..`.
pub open spec fn component(name: Seq<char>) -> bool {
    &&& name.len() > 0
    &&& forall|i: int| 0 <= i < name.len() ==> !is_sep(#[trigger] name[i])
    &&& name != seq!['.']
    &&& name != seq!['.', '.']
}

/// The text is the plain name of a file or folder: it holds no colon either, so that it is
/// never read as a drive.
pub open spec fn plain_name(name: Seq<char>) -> bool {
    component(name) && forall|i: int| 0 <= i < name.len() ==> #[trigger] name[i] != ':'
}

/// `p` ends in a separator and `name`, and that separator lies behind the prefix.
pub open spec fn ends_in(p: Seq<char>, name: Seq<char>) -> bool {
    let at = p.len() - name.len() - 1;
    &&& name.is_suffix_of(p)
    &&& prefix_len(p) <= at
    &&& is_sep_in(p[at], is_verbatim(prefix_kind(p)))
}

/// The path does not begin with two separators, as network, device and verbatim paths do:
/// it is relative, or rooted on the current drive or on a given one.
pub open spec fn is_local(p: Seq<char>) -> bool {
    p.len() < 2 || !is_sep(p[0]) || !is_sep(p[1])
}

proof fn lemma_next_sep(p: Seq<char>, from: int, verbatim: bool)
    requires
        0 <= from <= p.len(),
    ensures
        from <= next_sep(p, from, verbatim) <= p.len(),
    decreases p.len() - from,
{
    if from < p.len() && !is_sep_in(p[from], verbatim) {
        lemma_next_sep(p, from + 1, verbatim);
    }
}

proof fn lemma_prefix_len(p: Seq<char>)
    ensures
        0 <= prefix_len(p) <= p.len(),
{
    if p.len() >= 2 {
        lemma_next_sep(p, 2, false);
        if next_sep(p, 2, false) < p.len() {
            lemma_next_sep(p, next_sep(p, 2, false) + 1, false);
        }
    }
    if p.len() >= 4 {
        lemma_next_sep(p, 4, false);
        lemma_next_sep(p, 4, true);
    }
    if p.len() >= 8 {
        lemma_next_sep(p, 8, true);
        if next_sep(p, 8, true) < p.len() {
            lemma_next_sep(p, next_sep(p, 8, true) + 1, true);
        }
    }
}

proof fn lemma_last_start_is(p: Seq<char>, lo: int, start: int, hi: int, verbatim: bool)
    requires
        0 <= lo <= start <= hi <= p.len(),
        start > lo ==> is_sep_in(p[start - 1], verbatim),
        forall|i: int| start <= i < hi ==> !is_sep(#[trigger] p[i]),
    ensures
        last_start(p, lo, hi, verbatim) == start,
    decreases hi - start,
{
    if hi > start {
        lemma_last_start_is(p, lo, start, hi - 1, verbatim);
    }
}

/// What stands behind the last separator of a path is its file name, unless it is part of
/// the prefix.
pub proof fn law_last_component_is_file_name(p: Seq<char>, name: Seq<char>)
    requires
        component(name),
        ends_in(p, name),
    ensures
        file_name_of(p) == Some(name),
{
    let verbatim = is_verbatim(prefix_kind(p));
    let start = p.len() - name.len();
    let hi = p.len() as int;
    let lo = body_start(p);
    lemma_prefix_len(p);
    assert(p.subrange(start, hi) =~= name);
    assert forall|i: int| start <= i < hi implies !is_sep(#[trigger] p[i]) by {
        assert(p.subrange(start, hi)[i - start] == p[i]);
        assert(name[i - start] == p[i]);
    }
    lemma_last_start_is(p, lo, start, hi, verbatim);
    assert(!says_nothing(name, verbatim));
}

proof fn lemma_next_sep_is(p: Seq<char>, from: int, at: int, verbatim: bool)
    requires
        0 <= from <= at <= p.len(),
        forall|i: int| from <= i < at ==> !is_sep_in(#[trigger] p[i], verbatim),
        at < p.len() ==> is_sep_in(p[at], verbatim),
    ensures
        next_sep(p, from, verbatim) == at,
    decreases at - from,
{
    if from < at {
        assert(!is_sep_in(p[from], verbatim));
        lemma_next_sep_is(p, from + 1, at, verbatim);
    }
}

proof fn lemma_next_sep_extended(p: Seq<char>, q: Seq<char>, from: int)
    requires
        0 <= from <= p.len() < q.len(),
        forall|i: int| 0 <= i < p.len() ==> #[trigger] p[i] == q[i],
        is_sep(q[p.len() as int]),
    ensures
        next_sep(q, from, false) == next_sep(p, from, false),
    decreases p.len() - from,
{
    if from < p.len() && !is_sep_in(p[from], false) {
        lemma_next_sep_extended(p, q, from + 1);
    }
}

/// A name under a local folder or under a network share, behind either separator, ends the
/// path as its own component. Under a bare server name it would be the share instead.
pub proof fn law_folder_holds_name(dir: Seq<char>, sep: char, name: Seq<char>)
    requires
        is_local(dir) || prefix_kind(dir) is Unc,
        is_sep(sep),
        component(name),
    ensures
        ends_in(dir.push(sep) + name, name),
        file_name_of(dir.push(sep) + name) == Some(name),
{
    let p = dir.push(sep) + name;
    let n = dir.len() as int;
    assert(p.subrange(n + 1, p.len() as int) =~= name);
    assert(p[n] == sep);
    assert forall|i: int| n + 1 <= i < p.len() implies !is_sep(#[trigger] p[i]) by {
        assert(p[i] == name[i - n - 1]);
    }
    assert forall|i: int| 0 <= i < n implies #[trigger] dir[i] == p[i] by {}
    if prefix_kind(dir) is Unc {
        let server_end = next_sep(dir, 2, false);
        lemma_next_sep(dir, 2, false);
        lemma_next_sep(dir, server_end + 1, false);
        lemma_next_sep_extended(dir, p, 2);
        lemma_next_sep_extended(dir, p, server_end + 1);
        assert(p[0] == dir[0] && p[1] == dir[1] && p[2] == dir[2] && p[3] == dir[3]);
        assert(prefix_kind(p) is Unc);
    } else if is_sep(p[0]) && is_sep(p[1]) {
        assert(n == 1);
        lemma_next_sep_is(p, 2, p.len() as int, false);
        assert(prefix_kind(p) is Bare);
    } else {
        assert(prefix_kind(p) is Bare || prefix_kind(p) is Disk);
        if prefix_kind(p) is Disk {
            assert(p[1] == ':');
            assert(n >= 2);
        }
    }
    law_last_component_is_file_name(p, name);
}

/// A plain name joined to a folder on a drive is the file name of the result, and the
/// result lies on the same drive.
pub proof fn law_joined_name_is_file_name(dir: Seq<char>, name: Seq<char>)
    requires
        on_drive(dir),
        plain_name(name),
    ensures
        on_drive(joined(dir, name)),
        is_absolute(joined(dir, name)),
        file_name_of(joined(dir, name)) == Some(name),
{
    let p = joined(dir, name);
    assert(prefix_kind(dir) is Disk);
    assert(prefix_kind(name) is Bare) by {
        if name.len() >= 2 {
            assert(!is_sep(name[0]) && name[1] != ':');
        }
    }
    assert(!has_root(name)) by {
        assert(!is_sep(name[0]));
    }
    let start = p.len() - name.len();
    assert(p.subrange(start, p.len() as int) =~= name);
    assert(p[0] == dir[0] && p[1] == dir[1] && p[2] == dir[2]);
    assert(prefix_kind(p) is Disk);
    assert(body_start(p) == 3);
    assert forall|i: int| start <= i < p.len() implies !is_sep(#[trigger] p[i]) by {
        assert(p[i] == name[i - start]);
    }
    assert(start > 3 ==> is_sep(p[start - 1]));
    lemma_last_start_is(p, 3, start, p.len() as int, false);
    assert(!says_nothing(name, false));
}

/// A path that does not begin with two separators is absolute where it begins with a drive
/// letter, a colon and a separator, and only there.
pub proof fn law_absolute_on_a_drive(p: Seq<char>)
    requires
        p.len() < 2 || !(p[0] == '\\' || p[0] == '/') || !(p[1] == '\\' || p[1] == '/'),
    ensures
        is_absolute(p) <==> (p.len() >= 3 && (('a' <= p[0] && p[0] <= 'z') || ('A' <= p[0] && p[0]
            <= 'Z')) && p[1] == ':' && (p[2] == '\\' || p[2] == '/')),
{
}

/// A path that begins with two separators, a server and a share is absolute, whichever
/// separators are used; `s` is the place of the separator between server and share.
pub proof fn law_absolute_on_a_share(p: Seq<char>, s: int)
    requires
        2 < s < p.len() - 1,
        p[0] == '\\' || p[0] == '/',
        p[1] == '\\' || p[1] == '/',
        p[s] == '\\' || p[s] == '/',
        forall|i: int| 2 <= i < s ==> (#[trigger] p[i]) != '\\' && p[i] != '/',
        p[s + 1] != '\\' && p[s + 1] != '/',
    ensures
        is_absolute(p),
{
    lemma_next_sep_is(p, 2, s, false);
    lemma_next_sep(p, s + 2, false);
}

/// The file name of a path that does not begin with two separators is what stands behind
/// its last separator, at `at`.
pub proof fn law_name_behind_last_separator(p: Seq<char>, at: int)
    requires
        !(p[0] == '\\' || p[0] == '/') || !(p[1] == '\\' || p[1] == '/'),
        0 <= at < p.len() - 1,
        p[at] == '\\' || p[at] == '/',
        forall|i: int| at < i < p.len() ==> (#[trigger] p[i]) != '\\' && p[i] != '/',
        p.skip(at + 1) != seq!['.'],
        p.skip(at + 1) != seq!['.', '.'],
    ensures
        file_name_of(p) == Some(p.skip(at + 1)),
{
    let dir = p.take(at);
    let name = p.skip(at + 1);
    assert(p =~= dir.push(p[at]) + name);
    assert forall|i: int| 0 <= i < name.len() implies !is_sep(#[trigger] name[i]) by {
        assert(p[at + 1 + i] == name[i]);
    }
    if dir.len() >= 2 {
        assert(dir[0] == p[0] && dir[1] == p[1]);
    }
    law_folder_holds_name(dir, p[at], name);
}

/// A text without separators and without a colon is its own file name.
pub proof fn law_bare_name(p: Seq<char>)
    requires
        p.len() > 0,
        forall|i: int|
            0 <= i < p.len() ==> (#[trigger] p[i]) != '\\' && p[i] != '/' && p[i] != ':',
        p != seq!['.'],
        p != seq!['.', '.'],
    ensures
        file_name_of(p) == Some(p),
        !is_absolute(p),
{
    assert(prefix_kind(p) is Bare) by {
        if p.len() >= 2 {
            assert(!is_sep(p[0]) && p[1] != ':');
        }
    }
    assert(!is_sep(p[0]));
    assert(!has_cur_dir(p)) by {
        if p[0] == '.' && p.len() == 1 {
            assert(p =~= seq!['.']);
        }
        if p.len() >= 2 {
            assert(!is_sep(p[1]));
        }
    }
    lemma_last_start_is(p, 0, 0, p.len() as int, false);
    assert(p.subrange(0, p.len() as int) =~= p);
}

proof fn lemma_last_dot_is(name: Seq<char>, d: int)
    requires
        0 <= d < name.len(),
        name[d] == '.',
        forall|i: int| d < i < name.len() ==> #[trigger] name[i] != '.',
    ensures
        last_dot(name) == d,
    decreases name.len(),
{
    if d < name.len() - 1 {
        assert(name[name.len() - 1] != '.');
        lemma_last_dot_is(name.drop_last(), d);
    }
}

proof fn lemma_no_dot(name: Seq<char>)
    requires
        forall|i: int| 0 <= i < name.len() ==> #[trigger] name[i] != '.',
    ensures
        last_dot(name) == -1,
    decreases name.len(),
{
    if name.len() > 0 {
        assert(name[name.len() - 1] != '.');
        lemma_no_dot(name.drop_last());
    }
}

/// The last dot of a file name, at `d`, parts stem and extension, unless it comes first.
pub proof fn law_stem_and_extension(p: Seq<char>, name: Seq<char>, d: int)
    requires
        file_name_of(p) == Some(name),
        0 < d < name.len(),
        name[d] == '.',
        forall|i: int| d < i < name.len() ==> #[trigger] name[i] != '.',
    ensures
        stem_of(p) == Some(name.subrange(0, d)),
        extension_of(p) == Some(name.subrange(d + 1, name.len() as int)),
{
    lemma_last_dot_is(name, d);
    assert(name.take(d) =~= name.subrange(0, d));
    assert(name.skip(d + 1) =~= name.subrange(d + 1, name.len() as int));
}

/// A file name without a dot behind its first character has no extension and is its own
/// stem.
pub proof fn law_no_extension(p: Seq<char>, name: Seq<char>)
    requires
        file_name_of(p) == Some(name),
        name.len() > 0,
        forall|i: int| 0 < i < name.len() ==> #[trigger] name[i] != '.',
    ensures
        stem_of(p) == Some(name),
        extension_of(p) is None,
{
    if name[0] == '.' {
        lemma_last_dot_is(name, 0);
    } else {
        lemma_no_dot(name);
    }
}

/// A path has an extension in whatever case of ASCII letters: the two have the same length
/// and, place by place, the same character or the two cases of one letter.
pub proof fn law_extension_in_any_case(p: Seq<char>, e: Seq<char>, ext: Seq<char>)
    requires
        extension_of(p) == Some(e),
    ensures
        has_extension(p, ext) <==> (e.len() == ext.len() && forall|i: int|
            0 <= i < e.len() ==> (#[trigger] e[i]) == ext[i] || ('A' <= e[i] && e[i] <= 'Z'
                && ext[i] as int == e[i] as int + 32) || ('A' <= ext[i] && ext[i] <= 'Z'
                && e[i] as int == ext[i] as int + 32)),
{
    law_same_but_for_case(e, ext);
}

/// A path without an extension has none that could be asked for.
pub proof fn law_missing_extension(p: Seq<char>, ext: Seq<char>)
    requires
        extension_of(p) is None,
    ensures
        !has_extension(p, ext),
{
}

/// The parent of a path that does not begin with two separators is what stands before its
/// last separator, at `at`; that separator stays where it is the root.
pub proof fn law_parent_before_last_separator(p: Seq<char>, at: int)
    requires
        !(p[0] == '\\' || p[0] == '/') || !(p[1] == '\\' || p[1] == '/'),
        0 <= at < p.len() - 1,
        p[at] == '\\' || p[at] == '/',
        forall|i: int| at < i < p.len() ==> (#[trigger] p[i]) != '\\' && p[i] != '/',
        p.skip(at + 1) != seq!['.'],
        at > 0 ==> p[at - 1] != '\\' && p[at - 1] != '/',
        at > 1 ==> !(p[at - 1] == '.' && (p[at - 2] == '\\' || p[at - 2] == '/')),
    ensures
        parent_of(p) == Some(
            if at == 0 || (at == 2 && p[1] == ':' && (('a' <= p[0] && p[0] <= 'z') || ('A' <= p[0]
                && p[0] <= 'Z'))) {
                p.take(at + 1)
            } else {
                p.take(at)
            },
        ),
{
    let n = p.len() as int;
    let lo = body_start(p);
    assert(prefix_kind(p) is Bare || prefix_kind(p) is Disk);
    assert(0 <= lo <= at + 1);
    assert forall|i: int| at < i < n implies !is_sep(#[trigger] p[i]) by {}
    lemma_last_start_is(p, lo, at + 1, n, false);
    assert(p.subrange(at + 1, n) =~= p.skip(at + 1));
    assert(!says_nothing(p.subrange(at + 1, n), false));
    if lo <= at {
        let start = last_start(p, lo, at, false);
        if lo < at {
            lemma_last_start(p, lo, at, false);
            lemma_last_start_sep(p, lo, at, false);
            let c = p.subrange(start, at);
            if c =~= seq!['.'] {
                assert(c.len() == 1 && c[0] == '.');
            }
        }
        assert(last_end(p, lo, at, false) == at);
    }
}

proof fn lemma_last_start_sep(p: Seq<char>, lo: int, hi: int, verbatim: bool)
    requires
        lo <= hi,
    ensures
        last_start(p, lo, hi, verbatim) > lo ==> is_sep_in(
            p[last_start(p, lo, hi, verbatim) - 1],
            verbatim,
        ),
    decreases hi - lo,
{
    if hi > lo && !is_sep_in(p[hi - 1], verbatim) {
        lemma_last_start_sep(p, lo, hi - 1, verbatim);
    }
}

/// A relative name under a folder that does not begin with two separators comes behind it,
/// with a backslash between them where the folder does not end in a separator, is not empty
/// and is not a bare drive letter.
pub proof fn law_joined_under_a_local_folder(dir: Seq<char>, name: Seq<char>)
    requires
        dir.len() < 2 || !(dir[0] == '\\' || dir[0] == '/') || !(dir[1] == '\\' || dir[1] == '/'),
        name.len() > 0,
        name[0] != '\\' && name[0] != '/',
        name.len() > 1 ==> name[1] != ':',
    ensures
        joined(dir, name) == if dir.len() == 0 || dir.last() == '\\' || dir.last() == '/' || (
        dir.len() == 2 && dir[1] == ':' && (('a' <= dir[0] && dir[0] <= 'z') || ('A' <= dir[0]
            && dir[0] <= 'Z'))) {
            dir + name
        } else {
            dir + seq!['\\'] + name
        },
{
    assert(prefix_kind(name) is Bare);
    assert(!has_root(name));
    assert(dir.push('\\') =~= dir + seq!['\\']);
}

/// Being the same path is an equivalence.
pub proof fn law_same_path_is_an_equivalence(p: Seq<char>, q: Seq<char>, r: Seq<char>)
    ensures
        same_path(p, p),
        same_path(p, q) ==> same_path(q, p),
        same_path(p, q) && same_path(q, r) ==> same_path(p, r),
{
}

proof fn lemma_respelled(p: Seq<char>, q: Seq<char>, lo: int, hi: int)
    requires
        0 <= lo <= hi <= p.len(),
        p.len() == q.len(),
        forall|i: int| 0 <= i < p.len() ==> (#[trigger] p[i]) == q[i] || (is_sep(p[i]) && is_sep(q[i])),
    ensures
        last_start(p, lo, hi, false) == last_start(q, lo, hi, false),
        parts_in(p, lo, hi, false) == parts_in(q, lo, hi, false),
    decreases hi - lo,
{
    lemma_respelled_start(p, q, lo, hi);
    if hi > lo {
        let start = last_start(p, lo, hi, false);
        lemma_last_start(p, lo, hi, false);
        lemma_respelled(p, q, lo, before_start(lo, start));
        lemma_no_sep_behind(p, lo, hi);
        assert(p.subrange(start, hi) =~= q.subrange(start, hi)) by {
            assert forall|i: int| start <= i < hi implies p[i] == q[i] by {
                assert(!is_sep(p[i]));
            }
        }
    }
}

proof fn lemma_respelled_start(p: Seq<char>, q: Seq<char>, lo: int, hi: int)
    requires
        0 <= lo <= hi <= p.len(),
        p.len() == q.len(),
        forall|i: int| 0 <= i < p.len() ==> (#[trigger] p[i]) == q[i] || (is_sep(p[i]) && is_sep(q[i])),
    ensures
        last_start(p, lo, hi, false) == last_start(q, lo, hi, false),
    decreases hi - lo,
{
    if hi > lo {
        assert(p[hi - 1] == q[hi - 1] || (is_sep(p[hi - 1]) && is_sep(q[hi - 1])));
        if !is_sep(p[hi - 1]) {
            lemma_respelled_start(p, q, lo, hi - 1);
        }
    }
}

proof fn lemma_no_sep_behind(p: Seq<char>, lo: int, hi: int)
    requires
        0 <= lo <= hi <= p.len(),
    ensures
        forall|i: int| last_start(p, lo, hi, false) <= i < hi ==> !is_sep(#[trigger] p[i]),
    decreases hi - lo,
{
    if hi > lo && !is_sep(p[hi - 1]) {
        lemma_no_sep_behind(p, lo, hi - 1);
    }
}

/// Two paths that do not begin with two separators and differ only in which separators they
/// are written with are the same path.
pub proof fn law_separators_are_alike(p: Seq<char>, q: Seq<char>)
    requires
        p.len() < 2 || !(p[0] == '\\' || p[0] == '/') || !(p[1] == '\\' || p[1] == '/'),
        p.len() == q.len(),
        forall|i: int|
            0 <= i < p.len() ==> (#[trigger] p[i]) == q[i] || ((p[i] == '\\' || p[i] == '/') && (
            q[i] == '\\' || q[i] == '/')),
    ensures
        same_path(p, q),
{
    if p.len() > 0 {
        assert(p[0] == p[0]);
    }
    if p.len() > 1 {
        assert(p[1] == p[1]);
    }
    if p.len() > 2 {
        assert(p[2] == p[2]);
    }
    if p.len() > 3 {
        assert(p[3] == p[3]);
    }
    lemma_respelled(p, q, body_start(p), p.len() as int);
}

proof fn lemma_name_is_last_part(p: Seq<char>, lo: int, hi: int, verbatim: bool)
    requires
        0 <= lo <= hi <= p.len(),
    ensures
        lo <= last_end(p, lo, hi, verbatim) <= hi,
        last_end(p, lo, hi, verbatim) > lo <==> parts_in(p, lo, hi, verbatim).len() > 0,
        last_end(p, lo, hi, verbatim) > lo ==> parts_in(p, lo, hi, verbatim).last() == p.subrange(
            last_start(p, lo, last_end(p, lo, hi, verbatim), verbatim),
            last_end(p, lo, hi, verbatim),
        ),
    decreases hi - lo,
{
    if hi > lo {
        lemma_last_start(p, lo, hi, verbatim);
        let start = last_start(p, lo, hi, verbatim);
        lemma_name_is_last_part(p, lo, before_start(lo, start), verbatim);
    }
}

/// The same path has the same file name, is absolute in both spellings or in neither, and is
/// on the same drive, in whatever case of the letter.
pub proof fn law_same_path_same_place(p: Seq<char>, q: Seq<char>)
    requires
        same_path(p, q),
    ensures
        file_name_of(p) == file_name_of(q),
        is_absolute(p) == is_absolute(q),
        prefix_kind(p) is Disk ==> p[0] == q[0] || p[0] as int == q[0] as int + 32 || q[0] as int
            == p[0] as int + 32,
{
    let verbatim = is_verbatim(prefix_kind(p));
    lemma_prefix_len(p);
    lemma_prefix_len(q);
    lemma_name_is_last_part(p, body_start(p), p.len() as int, verbatim);
    lemma_name_is_last_part(q, body_start(q), q.len() as int, verbatim);
    if prefix_kind(p) is Disk {
        assert(prefix_name(p)[0] == prefix_name(q)[0]);
    }
}

proof fn lemma_share(p: Seq<char>, s: int, e: int)
    requires
        2 < s < e - 1 < p.len(),
        is_sep(p[0]) && is_sep(p[1]) && is_sep(p[s]),
        e < p.len() ==> is_sep(p[e]),
        !(s == 3 && (p[2] == '?' || p[2] == '.')),
        forall|i: int| 2 <= i < s ==> !is_sep(#[trigger] p[i]),
        forall|i: int| s < i < e ==> !is_sep(#[trigger] p[i]),
        e <= p.len(),
    ensures
        prefix_kind(p) is Unc,
        prefix_len(p) == e,
{
    lemma_next_sep_is(p, 2, s, false);
    lemma_next_sep_is(p, s + 1, e, false);
    if p.len() >= 4 && is_sep(p[3]) {
        assert(s == 3) by {
            if s > 3 {
                assert(!is_sep(p[3]));
            }
        }
    }
}

/// The file name of a path on a network share is what stands behind its last separator, at
/// `at`. `s` is the place of the separator between server and share, `e` that of the one
/// behind the share.
pub proof fn law_name_on_a_share(p: Seq<char>, s: int, e: int, at: int)
    requires
        2 < s < e - 1,
        e <= at < p.len() - 1,
        p[0] == '\\' || p[0] == '/',
        p[1] == '\\' || p[1] == '/',
        p[s] == '\\' || p[s] == '/',
        p[e] == '\\' || p[e] == '/',
        p[at] == '\\' || p[at] == '/',
        !(s == 3 && (p[2] == '?' || p[2] == '.')),
        forall|i: int| 2 <= i < s ==> (#[trigger] p[i]) != '\\' && p[i] != '/',
        forall|i: int| s < i < e ==> (#[trigger] p[i]) != '\\' && p[i] != '/',
        forall|i: int| at < i < p.len() ==> (#[trigger] p[i]) != '\\' && p[i] != '/',
        p.skip(at + 1) != seq!['.'],
        p.skip(at + 1) != seq!['.', '.'],
    ensures
        file_name_of(p) == Some(p.skip(at + 1)),
{
    assert forall|i: int| 2 <= i < s implies !is_sep(#[trigger] p[i]) by {}
    assert forall|i: int| s < i < e implies !is_sep(#[trigger] p[i]) by {}
    lemma_share(p, s, e);
    let name = p.skip(at + 1);
    assert forall|i: int| 0 <= i < name.len() implies !is_sep(#[trigger] name[i]) by {
        assert(name[i] == p[at + 1 + i]);
    }
    assert(name =~= p.subrange(p.len() - name.len(), p.len() as int));
    law_last_component_is_file_name(p, name);
}

/// A relative name under a network share comes behind it and a backslash.
pub proof fn law_joined_under_a_share(dir: Seq<char>, s: int, name: Seq<char>)
    requires
        2 < s < dir.len() - 1,
        dir[0] == '\\' || dir[0] == '/',
        dir[1] == '\\' || dir[1] == '/',
        dir[s] == '\\' || dir[s] == '/',
        dir.last() != '\\' && dir.last() != '/',
        !(s == 3 && (dir[2] == '?' || dir[2] == '.')),
        forall|i: int| 2 <= i < s ==> (#[trigger] dir[i]) != '\\' && dir[i] != '/',
        name.len() > 0,
        name[0] != '\\' && name[0] != '/',
        name.len() > 1 ==> name[1] != ':',
    ensures
        joined(dir, name) == dir + seq!['\\'] + name,
{
    assert(prefix_kind(name) is Bare);
    assert(!has_root(name));
    assert(!is_verbatim(prefix_kind(dir))) by {
        if dir[3] == '\\' && s > 3 {
            assert(dir[3] != '\\');
        }
    }
    assert(!(prefix_kind(dir) is Disk));
    assert(dir.push('\\') =~= dir + seq!['\\']);
}

/// A name with a drive of its own stands alone, whatever the folder.
pub proof fn law_joined_with_a_drive(dir: Seq<char>, name: Seq<char>)
    requires
        name.len() >= 2,
        ('a' <= name[0] && name[0] <= 'z') || ('A' <= name[0] && name[0] <= 'Z'),
        name[1] == ':',
    ensures
        joined(dir, name) == name,
{
}

/// A rooted name keeps of a local folder only the drive, if it has one.
pub proof fn law_joined_with_a_root(dir: Seq<char>, name: Seq<char>)
    requires
        dir.len() < 2 || !(dir[0] == '\\' || dir[0] == '/') || !(dir[1] == '\\' || dir[1] == '/'),
        name.len() > 0,
        name[0] == '\\' || name[0] == '/',
        name.len() > 1 ==> name[1] != '\\' && name[1] != '/',
    ensures
        dir.len() >= 2 && dir[1] == ':' && (('a' <= dir[0] && dir[0] <= 'z') || ('A' <= dir[0]
            && dir[0] <= 'Z')) ==> joined(dir, name) == dir.take(2) + name,
        !(dir.len() >= 2 && dir[1] == ':' && (('a' <= dir[0] && dir[0] <= 'z') || ('A' <= dir[0]
            && dir[0] <= 'Z'))) ==> joined(dir, name) == name,
{
    assert(prefix_kind(name) is Bare);
    assert(has_root(name));
    assert(dir.take(0) + name =~= name);
}

/// A root, on a drive or not, has neither a file name nor a parent.
pub proof fn law_root_stands_alone(p: Seq<char>)
    requires
        (p.len() == 1 && (p[0] == '\\' || p[0] == '/')) || (p.len() == 3 && (('a' <= p[0] && p[0]
            <= 'z') || ('A' <= p[0] && p[0] <= 'Z')) && p[1] == ':' && (p[2] == '\\' || p[2]
            == '/')),
    ensures
        file_name_of(p) is None,
        parent_of(p) is None,
{
    assert(body_start(p) == p.len());
}

/// The parent of a bare name is the empty path.
pub proof fn law_parent_of_a_bare_name(p: Seq<char>)
    requires
        p.len() > 0,
        forall|i: int|
            0 <= i < p.len() ==> (#[trigger] p[i]) != '\\' && p[i] != '/' && p[i] != ':',
        p != seq!['.'],
    ensures
        parent_of(p) == Some(Seq::<char>::empty()),
{
    assert(prefix_kind(p) is Bare) by {
        if p.len() >= 2 {
            assert(!is_sep(p[0]) && p[1] != ':');
        }
    }
    assert(!is_sep(p[0]));
    assert(!has_cur_dir(p)) by {
        if p[0] == '.' && p.len() == 1 {
            assert(p =~= seq!['.']);
        }
        if p.len() >= 2 {
            assert(!is_sep(p[1]));
        }
    }
    lemma_last_start_is(p, 0, 0, p.len() as int, false);
    assert(p.subrange(0, p.len() as int) =~= p);
    assert(p.take(0) =~= Seq::<char>::empty());
}

proof fn lemma_same_start(p: Seq<char>, q: Seq<char>, lo: int, hi: int, verbatim: bool)
    requires
        0 <= lo <= hi <= p.len(),
        hi <= q.len(),
        forall|i: int| 0 <= i < hi ==> #[trigger] p[i] == q[i],
    ensures
        last_start(p, lo, hi, verbatim) == last_start(q, lo, hi, verbatim),
    decreases hi - lo,
{
    if hi > lo {
        assert(p[hi - 1] == q[hi - 1]);
        lemma_same_start(p, q, lo, hi - 1, verbatim);
    }
}

proof fn lemma_same_end(p: Seq<char>, q: Seq<char>, lo: int, hi: int, verbatim: bool)
    requires
        0 <= lo <= hi <= p.len(),
        hi <= q.len(),
        forall|i: int| 0 <= i < hi ==> #[trigger] p[i] == q[i],
    ensures
        lo <= last_end(p, lo, hi, verbatim) <= hi,
        last_end(p, lo, hi, verbatim) == last_end(q, lo, hi, verbatim),
    decreases hi - lo,
{
    if hi > lo {
        lemma_same_start(p, q, lo, hi, verbatim);
        lemma_last_start(p, lo, hi, verbatim);
        let start = last_start(p, lo, hi, verbatim);
        assert(p.subrange(start, hi) =~= q.subrange(start, hi));
        lemma_same_end(p, q, lo, before_start(lo, start), verbatim);
    }
}

/// A separator at the end of a path changes neither its file name nor its parent. Holds of
/// paths that do not begin with two separators and are more than a bare drive.
pub proof fn law_trailing_separator(p: Seq<char>, sep: char)
    requires
        p.len() > 0,
        p.len() < 2 || !(p[0] == '\\' || p[0] == '/') || !(p[1] == '\\' || p[1] == '/'),
        p.last() != '\\' && p.last() != '/',
        !(p.len() == 2 && p[1] == ':'),
        sep == '\\' || sep == '/',
    ensures
        file_name_of(p.push(sep)) == file_name_of(p),
        parent_of(p.push(sep)) == parent_of(p),
{
    let q = p.push(sep);
    let n = p.len() as int;
    assert forall|i: int| 0 <= i < n implies #[trigger] p[i] == q[i] by {}
    assert(p[0] == q[0]);
    assert(p[n - 1] == p.last());
    assert(prefix_kind(p) == prefix_kind(q) && !is_verbatim(prefix_kind(p)));
    assert(prefix_len(p) == prefix_len(q));
    let lo = body_start(p);
    assert(body_start(q) == lo && lo <= n);
    assert(q.subrange(n + 1, n + 1) =~= Seq::<char>::empty());
    assert(last_start(q, lo, n + 1, false) == n + 1);
    assert(last_end(q, lo, n + 1, false) == last_end(q, lo, n, false));
    lemma_same_end(p, q, lo, n, false);
    let hi = last_end(p, lo, n, false);
    lemma_same_start(p, q, lo, hi, false);
    lemma_last_start(p, lo, hi, false);
    let start = last_start(p, lo, hi, false);
    assert(p.subrange(start, hi) =~= q.subrange(start, hi));
    let before = before_start(lo, start);
    lemma_same_end(p, q, lo, before, false);
    assert(p.take(last_end(p, lo, before, false)) =~= q.take(last_end(q, lo, before, false)));
    if lo > 0 {
        assert(p.take(lo - 1) =~= q.take(lo - 1));
    }
}

/// Two paths on drives that are written out, without an empty component or one that begins
/// with a dot, are the same path only where they are the same character for character, but
/// for the separators and for the case of the drive letter.
pub proof fn law_same_path_same_text(p: Seq<char>, q: Seq<char>)
    requires
        same_path(p, q),
        p.len() > 3,
        ('a' <= p[0] && p[0] <= 'z') || ('A' <= p[0] && p[0] <= 'Z'),
        p[1] == ':',
        p[2] == '\\' || p[2] == '/',
        p.last() != '\\' && p.last() != '/',
        forall|i: int|
            3 <= i < p.len() && (p[i - 1] == '\\' || p[i - 1] == '/') ==> (#[trigger] p[i]) != '\\'
                && p[i] != '/' && p[i] != '.',
        q.len() > 3,
        ('a' <= q[0] && q[0] <= 'z') || ('A' <= q[0] && q[0] <= 'Z'),
        q[1] == ':',
        q[2] == '\\' || q[2] == '/',
        q.last() != '\\' && q.last() != '/',
        forall|i: int|
            3 <= i < q.len() && (q[i - 1] == '\\' || q[i - 1] == '/') ==> (#[trigger] q[i]) != '\\'
                && q[i] != '/' && q[i] != '.',
    ensures
        p.len() == q.len(),
        forall|i: int|
            3 <= i < p.len() ==> (#[trigger] p[i]) == q[i] || ((p[i] == '\\' || p[i] == '/') && (
            q[i] == '\\' || q[i] == '/')),
        p[0] == q[0] || p[0] as int == q[0] as int + 32 || q[0] as int == p[0] as int + 32,
{
    law_same_path_same_place(p, q);
    assert(body_start(p) == 3 && body_start(q) == 3);
    assert(p[p.len() - 1] == p.last() && q[q.len() - 1] == q.last());
    lemma_parts_tell_the_text(p, q, p.len() as int, q.len() as int);
}

proof fn lemma_clean_part(p: Seq<char>, hi: int)
    requires
        3 < hi <= p.len(),
        is_sep(p[2]),
        !is_sep(p[hi - 1]),
        forall|i: int|
            3 <= i < p.len() && is_sep(p[i - 1]) ==> !is_sep(#[trigger] p[i]) && p[i] != '.',
    ensures
        ({
            let start = last_start(p, 3, hi, false);
            &&& 3 <= start < hi
            &&& parts_in(p, 3, hi, false) == parts_in(p, 3, before_start(3, start), false).push(
                p.subrange(start, hi),
            )
            &&& start > 3 ==> start - 1 > 3 && is_sep(p[start - 1]) && !is_sep(p[start - 2])
            &&& forall|i: int| start <= i < hi ==> !is_sep(#[trigger] p[i])
        }),
{
    let start = last_start(p, 3, hi, false);
    lemma_last_start(p, 3, hi, false);
    lemma_last_start_sep(p, 3, hi, false);
    lemma_no_sep_behind(p, 3, hi);
    assert(start < hi);
    if start == 3 {
        assert(p[start] != '.');
    } else {
        assert(is_sep(p[start - 1]));
        assert(p[start] != '.');
        assert(start - 1 > 3) by {
            assert(!is_sep(p[3]));
        }
        if is_sep(p[start - 2]) {
            assert(!is_sep(p[start - 1]));
        }
    }
    assert(p.subrange(start, hi)[0] == p[start]);
}

proof fn lemma_parts_tell_the_text(p: Seq<char>, q: Seq<char>, hp: int, hq: int)
    requires
        3 < hp <= p.len(),
        3 < hq <= q.len(),
        is_sep(p[2]) && is_sep(q[2]),
        !is_sep(p[hp - 1]) && !is_sep(q[hq - 1]),
        forall|i: int|
            3 <= i < p.len() && is_sep(p[i - 1]) ==> !is_sep(#[trigger] p[i]) && p[i] != '.',
        forall|i: int|
            3 <= i < q.len() && is_sep(q[i - 1]) ==> !is_sep(#[trigger] q[i]) && q[i] != '.',
        parts_in(p, 3, hp, false) == parts_in(q, 3, hq, false),
    ensures
        hp == hq,
        forall|i: int| 3 <= i < hp ==> (#[trigger] p[i]) == q[i] || (is_sep(p[i]) && is_sep(q[i])),
    decreases hp,
{
    lemma_clean_part(p, hp);
    lemma_clean_part(q, hq);
    let a = last_start(p, 3, hp, false);
    let b = last_start(q, 3, hq, false);
    let x = parts_in(p, 3, before_start(3, a), false);
    let y = parts_in(q, 3, before_start(3, b), false);
    let c = p.subrange(a, hp);
    let d = q.subrange(b, hq);
    assert(x.push(c).drop_last() =~= x && y.push(d).drop_last() =~= y);
    assert(x.push(c).last() == c && y.push(d).last() == d);
    assert(x == y && c == d);
    assert(c.len() == hp - a && d.len() == hq - b);
    if a > 3 && b > 3 {
        lemma_parts_tell_the_text(p, q, a - 1, b - 1);
    } else if a > 3 {
        lemma_clean_part(p, a - 1);
        assert(x.len() > 0 && y.len() == 0);
    } else if b > 3 {
        lemma_clean_part(q, b - 1);
        assert(y.len() > 0 && x.len() == 0);
    }
    assert forall|i: int| 3 <= i < hp implies (#[trigger] p[i]) == q[i] || (is_sep(p[i]) && is_sep(
        q[i],
    )) by {
        if i >= a {
            assert(c[i - a] == p[i] && d[i - b] == q[i]);
        }
    }
}

} // verus!
