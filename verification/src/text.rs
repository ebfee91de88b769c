//! Character-level text functions on `str` and `String`, stated over `Seq<char>`.

use vstd::prelude::*;

verus! {

/// `String::push` appends the character to the end of the string.
pub assume_specification[ String::push ](s: &mut String, c: char)
    ensures
        final(s)@ == old(s)@.push(c),
;

/// What `str::to_lowercase` makes of a text: its lowercase equivalent by the Unicode rules.
/// One character can become several, and what becomes of a capital sigma depends on the
/// characters around it.
pub uninterp spec fn lowercase(s: Seq<char>) -> Seq<char>;

/// An ASCII character, or a Han character of the basic block, which knows no case.
pub open spec fn ascii_or_han(c: char) -> bool {
    c <= '\u{7f}' || ('\u{4e00}' <= c && c <= '\u{9fff}')
}

/// The text holds only ASCII and Han characters.
pub open spec fn plain_text(s: Seq<char>) -> bool {
    forall|i: int| 0 <= i < s.len() ==> ascii_or_han(#[trigger] s[i])
}

/// Calls `str::to_lowercase`. In a text of ASCII and Han characters it turns the letters
/// `A` to `Z` into `a` to `z` and leaves the rest, Chinese being a language without case;
/// of any other text the contract only names the result.
#[verifier::external_body]
fn unicode_lowercase(s: &str) -> (r: String)
    ensures
        r@ == lowercase(s@),
        plain_text(s@) ==> r@ == ascii_lower_all(s@),
{
    s.to_lowercase()
}

/// The text in small letters: by the Unicode rules, which are those of ASCII where the text
/// has only ASCII and Han characters.
pub open spec fn lowered(s: Seq<char>) -> Seq<char> {
    if plain_text(s) {
        ascii_lower_all(s)
    } else {
        lowercase(s)
    }
}

/// The text in small letters.
pub fn to_lowercase(s: &str) -> (r: String)
    ensures
        r@ == lowered(s@),
{
    unicode_lowercase(s)
}

/// The characters of a text, in order.
pub fn chars_of(s: &str) -> (r: Vec<char>)
    ensures
        r@ == s@,
{
    let mut out: Vec<char> = Vec::new();
    for c in it: s.chars()
        invariant
            it.seq() == s@,
            out@ == s@.take(it.index()),
    {
        out.push(c);
        assert(s@.take(it.index() + 1) =~= s@.take(it.index()).push(c));
    }
    assert(s@.take(s@.len() as int) =~= s@);
    out
}

/// The text made of `chars[lo..hi]`.
pub fn text_between(chars: &Vec<char>, lo: usize, hi: usize) -> (r: String)
    requires
        lo <= hi <= chars@.len(),
    ensures
        r@ == chars@.subrange(lo as int, hi as int),
{
    let mut out = String::new();
    let mut i: usize = lo;
    while i < hi
        invariant
            lo <= i <= hi <= chars@.len(),
            out@ == chars@.subrange(lo as int, i as int),
        decreases hi - i,
    {
        out.push(chars[i]);
        i += 1;
        assert(chars@.subrange(lo as int, i as int) =~= chars@.subrange(lo as int, i - 1).push(
            chars@[i - 1],
        ));
    }
    out
}

/// Whether two texts hold the same characters.
pub fn text_eq(a: &str, b: &str) -> (r: bool)
    ensures
        r == (a@ == b@),
{
    a.to_owned() == b.to_owned()
}

/// The views of a list of texts.
pub open spec fn views(list: Seq<String>) -> Seq<Seq<char>> {
    Seq::new(list.len(), |i: int| list[i]@)
}

/// The view of an optional text.
pub open spec fn view_opt(t: Option<String>) -> Option<Seq<char>> {
    match t {
        Some(s) => Some(s@),
        None => None,
    }
}

/// A copy of a list of texts.
pub fn copy_texts(list: &Vec<String>) -> (r: Vec<String>)
    ensures
        views(r@) == views(list@),
{
    let mut out: Vec<String> = Vec::new();
    let mut i: usize = 0;
    while i < list.len()
        invariant
            i <= list@.len(),
            out@.len() == i,
            forall|j: int| 0 <= j < i ==> out@[j]@ == list@[j]@,
        decreases list.len() - i,
    {
        out.push(list[i].clone());
        i += 1;
    }
    assert(views(out@) =~= views(list@));
    out
}

/// Whether `list` holds the text `s`.
pub fn holds_text(list: &Vec<String>, s: &str) -> (r: bool)
    ensures
        r == views(list@).contains(s@),
{
    let mut i: usize = 0;
    while i < list.len()
        invariant
            i <= list@.len(),
            forall|j: int| 0 <= j < i ==> list@[j]@ != s@,
        decreases list.len() - i,
    {
        if text_eq(list[i].as_str(), s) {
            assert(views(list@)[i as int] == s@);
            return true;
        }
        i += 1;
    }
    assert forall|j: int| 0 <= j < views(list@).len() implies views(list@)[j] != s@ by {}
    false
}

/// Whether `s` begins with `prefix`.
pub fn starts_with(s: &str, prefix: &str) -> (r: bool)
    ensures
        r == prefix@.is_prefix_of(s@),
{
    let text = chars_of(s);
    let head = chars_of(prefix);
    head.len() <= text.len() && matches_at(&text, &head, 0)
}

/// Whether `s` ends with `suffix`.
pub fn ends_with(s: &str, suffix: &str) -> (r: bool)
    ensures
        r == suffix@.is_suffix_of(s@),
{
    let text = chars_of(s);
    let tail = chars_of(suffix);
    tail.len() <= text.len() && matches_at(&text, &tail, text.len() - tail.len())
}

/// `part` stands in `s` at place `i`.
pub open spec fn stands_at(s: Seq<char>, part: Seq<char>, i: int) -> bool {
    0 <= i <= s.len() - part.len() && s.subrange(i, i + part.len()) == part
}

/// `part` stands somewhere in `s`.
pub open spec fn contains_text(s: Seq<char>, part: Seq<char>) -> bool {
    exists|i: int| stands_at(s, part, i)
}

/// Whether `text[at..]` begins with `part`, which must fit there.
fn matches_at(text: &Vec<char>, part: &Vec<char>, at: usize) -> (r: bool)
    requires
        at + part@.len() <= text@.len(),
    ensures
        r == stands_at(text@, part@, at as int),
{
    let end: usize = text.len();
    let mut j: usize = 0;
    while j < part.len()
        invariant
            at + part@.len() <= text@.len() == end,
            j <= part@.len(),
            forall|k: int| 0 <= k < j ==> text@[at + k] == part@[k],
        decreases part.len() - j,
    {
        if text[at + j] != part[j] {
            assert(text@.subrange(at as int, at + part@.len())[j as int] != part@[j as int]);
            return false;
        }
        j += 1;
    }
    assert(text@.subrange(at as int, at + part@.len()) =~= part@);
    true
}

/// Whether `part` stands somewhere in `s`.
pub fn contains(s: &str, part: &str) -> (r: bool)
    ensures
        r == contains_text(s@, part@),
{
    let text = chars_of(s);
    let piece = chars_of(part);
    if piece.len() > text.len() {
        return false;
    }
    let last: usize = text.len() - piece.len();
    let mut i: usize = 0;
    while i <= last
        invariant
            text@ == s@,
            piece@ == part@,
            last == text@.len() - piece@.len(),
            i <= last + 1,
            forall|k: int| 0 <= k < i ==> !stands_at(s@, part@, k),
        decreases last + 1 - i,
    {
        if matches_at(&text, &piece, i) {
            return true;
        }
        if i == last {
            return false;
        }
        i += 1;
    }
    false
}

/// Whether the character `c` stands in `s`.
pub fn has_char(s: &str, c: char) -> (r: bool)
    ensures
        r == s@.contains(c),
{
    let text = chars_of(s);
    let mut i: usize = 0;
    while i < text.len()
        invariant
            text@ == s@,
            i <= text@.len(),
            forall|j: int| 0 <= j < i ==> s@[j] != c,
        decreases text.len() - i,
    {
        if text[i] == c {
            return true;
        }
        i += 1;
    }
    false
}

/// ASCII capital letters become small letters, every other character stays.
pub open spec fn ascii_lower(c: char) -> char {
    if 'A' <= c && c <= 'Z' {
        ((c as u8) + 32) as char
    } else {
        c
    }
}

/// Each character in its ASCII lowercase form.
pub open spec fn ascii_lower_all(s: Seq<char>) -> Seq<char> {
    Seq::new(s.len(), |i: int| ascii_lower(s[i]))
}

pub fn lower_char(c: char) -> (r: char)
    ensures
        r == ascii_lower(c),
{
    if 'A' <= c && c <= 'Z' {
        ((c as u8) + 32) as char
    } else {
        c
    }
}

/// `s` in ASCII lowercase.
pub fn to_ascii_lowercase(s: &str) -> (r: String)
    ensures
        r@ == ascii_lower_all(s@),
{
    let text = chars_of(s);
    let mut out = String::new();
    let mut i: usize = 0;
    while i < text.len()
        invariant
            text@ == s@,
            i <= text@.len(),
            out@ == ascii_lower_all(s@.take(i as int)),
        decreases text.len() - i,
    {
        out.push(lower_char(text[i]));
        i += 1;
        assert(out@ =~= ascii_lower_all(s@.take(i as int)));
    }
    assert(s@.take(s@.len() as int) =~= s@);
    out
}

/// Whether two texts differ at most in the case of ASCII letters.
pub fn eq_ignore_ascii_case(a: &str, b: &str) -> (r: bool)
    ensures
        r == (ascii_lower_all(a@) == ascii_lower_all(b@)),
{
    let left = to_ascii_lowercase(a);
    let right = to_ascii_lowercase(b);
    text_eq(left.as_str(), right.as_str())
}

/// The characters with the Unicode property White_Space.
pub open spec fn is_white_space(c: char) -> bool {
    ||| '\u{9}' <= c && c <= '\u{d}'
    ||| c == '\u{20}'
    ||| c == '\u{85}'
    ||| c == '\u{a0}'
    ||| c == '\u{1680}'
    ||| '\u{2000}' <= c && c <= '\u{200a}'
    ||| c == '\u{2028}'
    ||| c == '\u{2029}'
    ||| c == '\u{202f}'
    ||| c == '\u{205f}'
    ||| c == '\u{3000}'
}

/// Whether `c` has the Unicode property White_Space.
pub fn white_space(c: char) -> (r: bool)
    ensures
        r == is_white_space(c),
{
    ('\u{9}' <= c && c <= '\u{d}') || c == '\u{20}' || c == '\u{85}' || c == '\u{a0}' || c
        == '\u{1680}' || ('\u{2000}' <= c && c <= '\u{200a}') || c == '\u{2028}' || c == '\u{2029}'
        || c == '\u{202f}' || c == '\u{205f}' || c == '\u{3000}'
}

/// `s` without the white space at its start.
pub open spec fn trim_start(s: Seq<char>) -> Seq<char>
    decreases s.len(),
{
    if s.len() > 0 && is_white_space(s[0]) {
        trim_start(s.drop_first())
    } else {
        s
    }
}

/// `s` without the white space at its end.
pub open spec fn trim_end(s: Seq<char>) -> Seq<char>
    decreases s.len(),
{
    if s.len() > 0 && is_white_space(s.last()) {
        trim_end(s.drop_last())
    } else {
        s
    }
}

/// `s` without the white space around it.
pub open spec fn trimmed(s: Seq<char>) -> Seq<char> {
    trim_end(trim_start(s))
}

/// `s` without the white space around it.
pub fn trim(s: &str) -> (r: String)
    ensures
        r@ == trimmed(s@),
{
    let text = chars_of(s);
    let mut lo: usize = 0;
    assert(s@.skip(0) =~= s@);
    while lo < text.len() && white_space(text[lo])
        invariant
            text@ == s@,
            lo <= text@.len(),
            trim_start(s@) == trim_start(s@.skip(lo as int)),
        decreases text.len() - lo,
    {
        assert(s@.skip(lo as int).drop_first() =~= s@.skip(lo + 1));
        lo += 1;
    }
    assert(trim_start(s@) =~= s@.skip(lo as int));
    let mut hi: usize = text.len();
    assert(s@.subrange(lo as int, hi as int) =~= s@.skip(lo as int));
    while hi > lo && white_space(text[hi - 1])
        invariant
            text@ == s@,
            lo <= hi <= text@.len(),
            trimmed(s@) == trim_end(s@.subrange(lo as int, hi as int)),
        decreases hi,
    {
        assert(s@.subrange(lo as int, hi as int).drop_last() =~= s@.subrange(lo as int, hi - 1));
        hi -= 1;
    }
    text_between(&text, lo, hi)
}

/// The pieces of `s` between the separators, in order: one more than there are separators.
pub open spec fn split_on(s: Seq<char>, sep: char) -> Seq<Seq<char>>
    decreases s.len(),
{
    if s.len() == 0 {
        seq![Seq::empty()]
    } else {
        let before = split_on(s.drop_last(), sep);
        if s.last() == sep {
            before.push(Seq::empty())
        } else {
            before.drop_last().push(before.last().push(s.last()))
        }
    }
}

/// The pieces of `s` between the separators.
pub fn split(s: &str, sep: char) -> (r: Vec<String>)
    ensures
        views(r@) == split_on(s@, sep),
{
    let text = chars_of(s);
    let mut out: Vec<String> = Vec::new();
    let mut piece = String::new();
    let mut i: usize = 0;
    assert(split_on(s@.take(0), sep) =~= views(out@).push(piece@));
    while i < text.len()
        invariant
            text@ == s@,
            i <= text@.len(),
            split_on(s@.take(i as int), sep) == views(out@).push(piece@),
        decreases text.len() - i,
    {
        let c = text[i];
        let ghost done = views(out@);
        let ghost part = piece@;
        assert(s@.take(i + 1).drop_last() =~= s@.take(i as int));
        assert(done.push(part).drop_last() =~= done);
        if c == sep {
            out.push(piece);
            piece = String::new();
            assert(views(out@) =~= done.push(part));
        } else {
            piece.push(c);
        }
        i += 1;
        assert(split_on(s@.take(i as int), sep) =~= views(out@).push(piece@));
    }
    assert(s@.take(s@.len() as int) =~= s@);
    out.push(piece);
    assert(views(out@) =~= split_on(s@, sep));
    out
}

/// The decimal digits of `n`.
pub open spec fn digits(n: nat) -> Seq<char>
    decreases n,
{
    if n < 10 {
        seq![(48 + n) as char]
    } else {
        digits(n / 10).push((48 + n % 10) as char)
    }
}

/// `n` in decimal, with a minus sign where it is negative.
pub open spec fn decimal(n: int) -> Seq<char> {
    if n < 0 {
        seq!['-'] + digits((-n) as nat)
    } else {
        digits(n as nat)
    }
}

fn push_digits(out: &mut String, n: u64)
    ensures
        final(out)@ == old(out)@ + digits(n as nat),
    decreases n,
{
    let d: u8 = (n % 10) as u8;
    if n >= 10 {
        push_digits(out, n / 10);
    }
    out.push((48 + d) as char);
    assert(out@ =~= old(out)@ + digits(n as nat));
}

/// `n` in decimal.
pub fn to_decimal(n: i64) -> (r: String)
    ensures
        r@ == decimal(n as int),
{
    let mut out = String::new();
    if n < 0 {
        out.push('-');
        push_digits(&mut out, (-(n + 1)) as u64 + 1);
        assert(out@ =~= decimal(n as int));
    } else {
        push_digits(&mut out, n as u64);
        assert(out@ =~= decimal(n as int));
    }
    out
}

/// The hexadecimal digit of `d`, in small letters.
pub open spec fn hex_digit(d: int) -> char {
    if d < 10 {
        (48 + d) as char
    } else {
        (87 + d) as char
    }
}

/// `n` as four hexadecimal digits.
pub open spec fn hex4(n: int) -> Seq<char> {
    seq![
        hex_digit(n / 4096 % 16),
        hex_digit(n / 256 % 16),
        hex_digit(n / 16 % 16),
        hex_digit(n % 16),
    ]
}

fn to_hex_digit(d: u16) -> (r: char)
    requires
        d < 16,
    ensures
        r == hex_digit(d as int),
{
    if d < 10 {
        (48 + d as u8) as char
    } else {
        (87 + d as u8) as char
    }
}

/// `n` as four hexadecimal digits.
pub fn to_hex4(n: u16) -> (r: String)
    ensures
        r@ == hex4(n as int),
{
    let mut out = String::new();
    out.push(to_hex_digit(n / 4096 % 16));
    out.push(to_hex_digit(n / 256 % 16));
    out.push(to_hex_digit(n / 16 % 16));
    out.push(to_hex_digit(n % 16));
    assert(out@ =~= hex4(n as int));
    out
}

/// In a text of ASCII and Han characters only the letters `A` to `Z` change, each to the
/// letter 32 places on.
pub proof fn law_small_letters(s: Seq<char>)
    requires
        forall|i: int|
            0 <= i < s.len() ==> (#[trigger] s[i]) <= '\u{7f}' || ('\u{4e00}' <= s[i] && s[i]
                <= '\u{9fff}'),
    ensures
        lowered(s).len() == s.len(),
        forall|i: int|
            0 <= i < s.len() && 'A' <= s[i] && s[i] <= 'Z' ==> (#[trigger] lowered(s)[i]) as int
                == s[i] as int + 32,
        forall|i: int|
            0 <= i < s.len() && !('A' <= s[i] && s[i] <= 'Z') ==> #[trigger] lowered(s)[i] == s[i],
{
}

/// A text with any other character goes through the Unicode mapping.
pub proof fn law_other_letters_follow_unicode(s: Seq<char>, i: int)
    requires
        0 <= i < s.len(),
        '\u{7f}' < s[i],
        !('\u{4e00}' <= s[i] && s[i] <= '\u{9fff}'),
    ensures
        lowered(s) == lowercase(s),
{
    assert(!ascii_or_han(s[i]));
}

/// Two texts have the same ASCII lowercase form where they have the same length and, place by
/// place, the same character or the two cases of one ASCII letter.
pub proof fn law_same_but_for_case(a: Seq<char>, b: Seq<char>)
    ensures
        ascii_lower_all(a) == ascii_lower_all(b) <==> (a.len() == b.len() && forall|i: int|
            0 <= i < a.len() ==> (#[trigger] a[i]) == b[i] || ('A' <= a[i] && a[i] <= 'Z'
                && b[i] as int == a[i] as int + 32) || ('A' <= b[i] && b[i] <= 'Z' && a[i] as int
                == b[i] as int + 32)),
{
    let la = ascii_lower_all(a);
    let lb = ascii_lower_all(b);
    if la == lb {
        assert(la.len() == a.len() && lb.len() == b.len());
        assert forall|i: int| 0 <= i < a.len() implies (#[trigger] a[i]) == b[i] || ('A' <= a[i]
            && a[i] <= 'Z' && b[i] as int == a[i] as int + 32) || ('A' <= b[i] && b[i] <= 'Z'
            && a[i] as int == b[i] as int + 32) by {
            assert(la[i] == ascii_lower(a[i]) && lb[i] == ascii_lower(b[i]));
        }
    } else if a.len() == b.len() && (forall|i: int|
        0 <= i < a.len() ==> (#[trigger] a[i]) == b[i] || ('A' <= a[i] && a[i] <= 'Z'
            && b[i] as int == a[i] as int + 32) || ('A' <= b[i] && b[i] <= 'Z' && a[i] as int
            == b[i] as int + 32)) {
        assert forall|i: int| 0 <= i < la.len() implies la[i] == lb[i] by {
            assert(a[i] == a[i]);
        }
        assert(la =~= lb);
    }
}

/// A text holds a part where it is that part with something, or nothing, before and behind
/// it.
pub proof fn law_contains_text(s: Seq<char>, part: Seq<char>)
    ensures
        contains_text(s, part) <==> exists|a: Seq<char>, b: Seq<char>| s == #[trigger] (a + part + b),
{
    if contains_text(s, part) {
        let i = choose|i: int| stands_at(s, part, i);
        let a = s.take(i);
        let b = s.skip(i + part.len());
        assert(s =~= a + part + b) by {
            assert forall|k: int| i <= k < i + part.len() implies s[k] == (a + part + b)[k] by {
                assert(s.subrange(i, i + part.len())[k - i] == s[k]);
            }
        }
    }
    if exists|a: Seq<char>, b: Seq<char>| s == #[trigger] (a + part + b) {
        let (a, b) = choose|a: Seq<char>, b: Seq<char>| s == #[trigger] (a + part + b);
        assert(s.subrange(a.len() as int, (a.len() + part.len()) as int) =~= part);
        assert(stands_at(s, part, a.len() as int));
    }
}

/// The white space of Unicode, by code point.
pub proof fn law_white_space(c: char)
    ensures
        is_white_space(c) <==> (9 <= c as int <= 13 || c as int == 0x20 || c as int == 0x85
            || c as int == 0xa0 || c as int == 0x1680 || 0x2000 <= c as int <= 0x200a || c as int
            == 0x2028 || c as int == 0x2029 || c as int == 0x202f || c as int == 0x205f || c as int
            == 0x3000),
{
}

proof fn lemma_trim_start(s: Seq<char>) -> (n: int)
    ensures
        0 <= n <= s.len(),
        trim_start(s) == s.skip(n),
        forall|i: int| 0 <= i < n ==> is_white_space(#[trigger] s[i]),
        n < s.len() ==> !is_white_space(s[n]),
    decreases s.len(),
{
    if s.len() > 0 && is_white_space(s[0]) {
        let m = lemma_trim_start(s.drop_first());
        assert(s.drop_first().skip(m) =~= s.skip(m + 1));
        assert forall|i: int| 0 <= i < m + 1 implies is_white_space(#[trigger] s[i]) by {
            if i > 0 {
                assert(s.drop_first()[i - 1] == s[i]);
            }
        }
        m + 1
    } else {
        assert(s.skip(0) =~= s);
        0
    }
}

proof fn lemma_trim_end(s: Seq<char>) -> (n: int)
    ensures
        0 <= n <= s.len(),
        trim_end(s) == s.take(n),
        forall|i: int| n <= i < s.len() ==> is_white_space(#[trigger] s[i]),
        n > 0 ==> !is_white_space(s[n - 1]),
    decreases s.len(),
{
    if s.len() > 0 && is_white_space(s.last()) {
        let m = lemma_trim_end(s.drop_last());
        assert(s.drop_last().take(m) =~= s.take(m));
        assert forall|i: int| m <= i < s.len() implies is_white_space(#[trigger] s[i]) by {
            if i < s.len() - 1 {
                assert(s.drop_last()[i] == s[i]);
            }
        }
        m
    } else {
        assert(s.take(s.len() as int) =~= s);
        s.len() as int
    }
}

/// Trimming takes off white space only, at both ends, and all of it: what is left is a piece of
/// the text with nothing but white space before and behind it, and does not begin or end
/// with any.
pub proof fn law_trimmed(s: Seq<char>)
    ensures
        exists|lo: int, hi: int|
            0 <= lo <= hi <= s.len() && trimmed(s) == #[trigger] s.subrange(lo, hi) && (forall|
                i: int,
            |
                0 <= i < lo ==> is_white_space(#[trigger] s[i])) && (forall|i: int|
                hi <= i < s.len() ==> is_white_space(#[trigger] s[i])),
        trimmed(s).len() > 0 ==> !is_white_space(trimmed(s)[0]) && !is_white_space(
            trimmed(s).last(),
        ),
{
    let lo = lemma_trim_start(s);
    let mid = s.skip(lo);
    let n = lemma_trim_end(mid);
    let hi = lo + n;
    assert(mid.take(n) =~= s.subrange(lo, hi));
    assert forall|i: int| hi <= i < s.len() implies is_white_space(#[trigger] s[i]) by {
        assert(mid[i - lo] == s[i]);
    }
    if n > 0 {
        assert(mid[0] == s[lo]);
        assert(trimmed(s)[0] == s[lo]);
        assert(trimmed(s).last() == mid[n - 1]);
    }
}

/// The pieces with the separator between them.
pub open spec fn with_separators(pieces: Seq<Seq<char>>, sep: char) -> Seq<char>
    decreases pieces.len(),
{
    if pieces.len() == 0 {
        Seq::empty()
    } else if pieces.len() == 1 {
        pieces[0]
    } else {
        with_separators(pieces.drop_last(), sep).push(sep) + pieces.last()
    }
}

/// Splitting undoes putting separators between pieces: there is at least one piece, no piece
/// holds a separator, and with the separators between them they are the text.
pub proof fn law_split(s: Seq<char>, sep: char)
    ensures
        split_on(s, sep).len() > 0,
        forall|i: int|
            0 <= i < split_on(s, sep).len() ==> !(#[trigger] split_on(s, sep)[i]).contains(sep),
        with_separators(split_on(s, sep), sep) == s,
    decreases s.len(),
{
    let all = split_on(s, sep);
    if s.len() == 0 {
        assert(with_separators(all, sep) =~= s);
    } else {
        let before = split_on(s.drop_last(), sep);
        law_split(s.drop_last(), sep);
        if s.last() == sep {
            assert(all.drop_last() =~= before);
            assert(with_separators(all, sep) =~= s);
        } else {
            let piece = before.last();
            let longer = piece.push(s.last());
            assert(all.last() == longer);
            assert(all.drop_last() =~= before.drop_last());
            assert forall|i: int| 0 <= i < all.len() implies !(#[trigger] all[i]).contains(sep) by {
                if i < all.len() - 1 {
                    assert(all[i] == before[i]);
                } else {
                    assert(!before[before.len() - 1].contains(sep));
                    if longer.contains(sep) {
                        let k = choose|k: int| 0 <= k < longer.len() && longer[k] == sep;
                        assert(piece[k] == sep);
                    }
                }
            }
            let head = with_separators(before.drop_last(), sep).push(sep);
            assert(s =~= s.drop_last().push(s.last()));
            if before.len() > 1 {
                assert((head + piece).push(s.last()) =~= head + longer);
            } else {
                assert(before[0] == piece);
                assert(all[0] == longer);
            }
        }
    }
}

/// The number that a row of decimal digits stands for.
pub open spec fn number_of(digits: Seq<char>) -> int
    decreases digits.len(),
{
    if digits.len() == 0 {
        0
    } else {
        number_of(digits.drop_last()) * 10 + (digits.last() as int - '0' as int)
    }
}

/// The decimal digits of a number stand for it, are digits, and have no zero in front.
pub proof fn law_digits(n: nat)
    ensures
        digits(n).len() > 0,
        forall|i: int|
            0 <= i < digits(n).len() ==> '0' <= (#[trigger] digits(n)[i]) && digits(n)[i] <= '9',
        digits(n).len() > 1 ==> digits(n)[0] != '0',
        number_of(digits(n)) == n,
    decreases n,
{
    let d = digits(n);
    if n < 10 {
        assert(d.drop_last() =~= Seq::empty());
        assert(number_of(d.drop_last()) == 0);
    } else {
        law_digits(n / 10);
        assert(d.drop_last() =~= digits(n / 10));
        assert(n / 10 > 0);
        if digits(n / 10).len() == 1 {
            assert(digits(n / 10).drop_last() =~= Seq::empty());
            assert(number_of(digits(n / 10).drop_last()) == 0);
        }
        assert(d[0] == digits(n / 10)[0]);
    }
}

/// A number in decimal: its digits, behind a minus sign where it is negative.
pub proof fn law_decimal(n: int)
    ensures
        n >= 0 ==> number_of(decimal(n)) == n && decimal(n)[0] != '-',
        n < 0 ==> decimal(n)[0] == '-' && number_of(decimal(n).skip(1)) == -n,
{
    if n >= 0 {
        law_digits(n as nat);
        assert('0' <= digits(n as nat)[0]);
    } else {
        law_digits((-n) as nat);
        assert(decimal(n).skip(1) =~= digits((-n) as nat));
    }
}

/// The number that a hexadecimal digit in small letters stands for.
pub open spec fn hex_value(c: char) -> int {
    if c <= '9' {
        c as int - '0' as int
    } else {
        c as int - 'a' as int + 10
    }
}

proof fn lemma_hex_digit(d: int)
    requires
        0 <= d < 16,
    ensures
        hex_value(hex_digit(d)) == d,
        ('0' <= hex_digit(d) && hex_digit(d) <= '9') || ('a' <= hex_digit(d) && hex_digit(d)
            <= 'f'),
{
}

/// Four hexadecimal digits, in small letters, stand for the number.
pub proof fn law_hex4(n: int)
    requires
        0 <= n < 65536,
    ensures
        hex4(n).len() == 4,
        forall|i: int|
            0 <= i < 4 ==> ('0' <= (#[trigger] hex4(n)[i]) && hex4(n)[i] <= '9') || ('a'
                <= hex4(n)[i] && hex4(n)[i] <= 'f'),
        hex_value(hex4(n)[0]) * 4096 + hex_value(hex4(n)[1]) * 256 + hex_value(hex4(n)[2]) * 16
            + hex_value(hex4(n)[3]) == n,
{
    lemma_hex_digit(n / 4096 % 16);
    lemma_hex_digit(n / 256 % 16);
    lemma_hex_digit(n / 16 % 16);
    lemma_hex_digit(n % 16);
    let h = hex4(n);
    assert(h[0] == hex_digit(n / 4096 % 16) && h[1] == hex_digit(n / 256 % 16));
    assert(h[2] == hex_digit(n / 16 % 16) && h[3] == hex_digit(n % 16));
    assert(n / 16 / 16 == n / 256 && n / 256 / 16 == n / 4096 && n / 4096 / 16 == 0);
}

} // verus!
