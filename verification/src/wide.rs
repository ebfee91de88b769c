//! UTF-16 text as the wide Win32 calls take and give it.

use crate::text::{chars_of, trim, trimmed, view_opt};
use vstd::prelude::*;

verus! {

/// `char::from_u32` gives the character with that code point, and `None` for a number
/// that is a surrogate or lies beyond the last code point.
pub assume_specification[ char::from_u32 ](i: u32) -> (r: Option<char>)
    ensures
        r == if is_scalar(i as int) {
            Some(i as char)
        } else {
            None::<char>
        },
;

/// `i` is the code point of a character.
pub open spec fn is_scalar(i: int) -> bool {
    0 <= i <= 0x10ffff && !(0xd800 <= i <= 0xdfff)
}

/// The replacement character, which stands for a surrogate without its partner.
pub open spec fn replacement() -> char {
    '\u{fffd}'
}

pub open spec fn is_high(u: u16) -> bool {
    0xd800 <= u < 0xdc00
}

pub open spec fn is_low(u: u16) -> bool {
    0xdc00 <= u < 0xe000
}

/// The character that a surrogate pair stands for.
pub open spec fn pair_char(high: u16, low: u16) -> char {
    (0x10000 + (high - 0xd800) * 1024 + (low - 0xdc00)) as char
}

/// The UTF-16 units of one character.
pub open spec fn units_of(c: char) -> Seq<u16> {
    if (c as u32) < 0x10000 {
        seq![c as u16]
    } else {
        let v = c as u32 - 0x10000;
        seq![(0xd800 + v / 1024) as u16, (0xdc00 + v % 1024) as u16]
    }
}

/// The UTF-16 units of a text.
pub open spec fn encode16(s: Seq<char>) -> Seq<u16>
    decreases s.len(),
{
    if s.len() == 0 {
        Seq::empty()
    } else {
        units_of(s[0]) + encode16(s.drop_first())
    }
}

/// The text of a run of UTF-16 units; a surrogate without its partner reads as the
/// replacement character.
pub open spec fn decode16(u: Seq<u16>) -> Seq<char>
    decreases u.len(),
{
    if u.len() == 0 {
        Seq::empty()
    } else if is_high(u[0]) && u.len() > 1 && is_low(u[1]) {
        seq![pair_char(u[0], u[1])] + decode16(u.skip(2))
    } else if is_high(u[0]) || is_low(u[0]) {
        seq![replacement()] + decode16(u.skip(1))
    } else {
        seq![u[0] as char] + decode16(u.skip(1))
    }
}

/// What stands before the first NUL unit, or all of it where there is none.
pub open spec fn before_nul(u: Seq<u16>) -> Seq<u16>
    decreases u.len(),
{
    if u.len() == 0 || u[0] == 0 {
        Seq::empty()
    } else {
        seq![u[0]] + before_nul(u.drop_first())
    }
}

/// The trimmed text of a NUL-terminated buffer, and nothing where that is empty.
pub open spec fn wide_text(u: Seq<u16>) -> Option<Seq<char>> {
    let t = trimmed(decode16(before_nul(u)));
    if t.len() == 0 {
        None
    } else {
        Some(t)
    }
}

/// Appends the units of `c`.
fn push_units(out: &mut Vec<u16>, c: char)
    ensures
        final(out)@ == old(out)@ + units_of(c),
{
    let n: u32 = c as u32;
    if n < 0x10000 {
        out.push(n as u16);
    } else {
        let v: u32 = n - 0x10000;
        out.push((0xd800 + v / 1024) as u16);
        out.push((0xdc00 + v % 1024) as u16);
    }
    assert(out@ =~= old(out)@ + units_of(c));
}

/// UTF-8 text as NUL-terminated UTF-16, for the wide Win32 calls.
pub fn wide_str(s: &str) -> (r: Vec<u16>)
    ensures
        r@ == encode16(s@).push(0),
{
    let text = chars_of(s);
    let mut out: Vec<u16> = Vec::new();
    let mut i: usize = 0;
    assert(s@.skip(0) =~= s@);
    while i < text.len()
        invariant
            text@ == s@,
            i <= text@.len(),
            encode16(s@) == out@ + encode16(s@.skip(i as int)),
        decreases text.len() - i,
    {
        let c = text[i];
        let ghost before = out@;
        assert(s@.skip(i as int).drop_first() =~= s@.skip(i + 1));
        push_units(&mut out, c);
        i += 1;
        assert(before + (units_of(c) + encode16(s@.skip(i as int))) =~= out@ + encode16(
            s@.skip(i as int),
        ));
    }
    assert(encode16(s@) =~= out@);
    out.push(0);
    out
}

/// The text of `units`.
pub fn decode_lossy(units: &Vec<u16>) -> (r: String)
    ensures
        r@ == decode16(units@),
{
    let mut out = String::new();
    let mut i: usize = 0;
    assert(units@.skip(0) =~= units@);
    while i < units.len()
        invariant
            i <= units@.len(),
            decode16(units@) == out@ + decode16(units@.skip(i as int)),
        decreases units.len() - i,
    {
        let u: u16 = units[i];
        let ghost rest = units@.skip(i as int);
        let ghost before = out@;
        assert(rest.skip(1) =~= units@.skip(i + 1));
        if 0xd800 <= u && u < 0xdc00 && i + 1 < units.len() && 0xdc00 <= units[i + 1] && units[i
            + 1] < 0xe000 {
            assert(rest.skip(2) =~= units@.skip(i + 2));
            let low: u16 = units[i + 1];
            let code: u32 = 0x10000 + (u - 0xd800) as u32 * 1024 + (low - 0xdc00) as u32;
            if let Some(c) = char::from_u32(code) {
                out.push(c);
            }
            i += 2;
            assert(before + (seq![pair_char(u, low)] + decode16(units@.skip(i as int))) =~= out@
                + decode16(units@.skip(i as int)));
        } else if 0xd800 <= u && u < 0xe000 {
            out.push('\u{fffd}');
            i += 1;
            assert(before + (seq![replacement()] + decode16(units@.skip(i as int))) =~= out@
                + decode16(units@.skip(i as int)));
        } else {
            if let Some(c) = char::from_u32(u as u32) {
                out.push(c);
            }
            i += 1;
            assert(before + (seq![u as char] + decode16(units@.skip(i as int))) =~= out@
                + decode16(units@.skip(i as int)));
        }
    }
    assert(decode16(units@) =~= out@);
    out
}

/// The text of a NUL-terminated UTF-16 buffer, trimmed; `None` where nothing is left.
pub fn read_wide(units: &Vec<u16>) -> (r: Option<String>)
    ensures
        view_opt(r) == wide_text(units@),
{
    let mut body: Vec<u16> = Vec::new();
    let mut i: usize = 0;
    assert(units@.skip(0) =~= units@);
    while i < units.len() && units[i] != 0
        invariant
            i <= units@.len(),
            before_nul(units@) == body@ + before_nul(units@.skip(i as int)),
        decreases units.len() - i,
    {
        let u: u16 = units[i];
        let ghost before = body@;
        assert(units@.skip(i as int).drop_first() =~= units@.skip(i + 1));
        body.push(u);
        i += 1;
        assert(before + (seq![u] + before_nul(units@.skip(i as int))) =~= body@ + before_nul(
            units@.skip(i as int),
        ));
    }
    assert(before_nul(units@) =~= body@);
    let text = decode_lossy(&body);
    let t = trim(text.as_str());
    if t.as_str().is_empty() {
        None
    } else {
        Some(t)
    }
}

proof fn lemma_decode_char(c: char, rest: Seq<u16>)
    ensures
        decode16(units_of(c) + rest) == seq![c] + decode16(rest),
{
    let u = units_of(c) + rest;
    if (c as u32) < 0x10000 {
        assert(u[0] == c as u16);
        assert(u.skip(1) =~= rest);
    } else {
        let v: u32 = (c as u32 - 0x10000) as u32;
        assert(u[0] == (0xd800 + v / 1024) as u16);
        assert(u[1] == (0xdc00 + v % 1024) as u16);
        assert(u.skip(2) =~= rest);
    }
}

/// Decoding undoes encoding: every text survives the way through UTF-16.
pub proof fn law_utf16_round_trip(s: Seq<char>)
    ensures
        decode16(encode16(s)) == s,
    decreases s.len(),
{
    if s.len() > 0 {
        law_utf16_round_trip(s.drop_first());
        lemma_decode_char(s[0], encode16(s.drop_first()));
        assert(seq![s[0]] + s.drop_first() =~= s);
    } else {
        assert(decode16(encode16(s)) =~= s);
    }
}

proof fn lemma_before_nul_char(c: char, rest: Seq<u16>)
    requires
        c != '\0',
    ensures
        before_nul(units_of(c) + rest) == units_of(c) + before_nul(rest),
{
    let all = units_of(c) + rest;
    if (c as u32) < 0x10000 {
        assert(all.drop_first() =~= rest);
        assert(seq![all[0]] + before_nul(rest) =~= units_of(c) + before_nul(rest));
    } else {
        let v: u32 = (c as u32 - 0x10000) as u32;
        let low = units_of(c)[1];
        assert(all[0] == (0xd800 + v / 1024) as u16 && low == (0xdc00 + v % 1024) as u16);
        assert(all.drop_first() =~= seq![low] + rest);
        assert(before_nul(all.drop_first()) == seq![low] + before_nul(
            all.drop_first().drop_first(),
        ));
        assert(all.drop_first().drop_first() =~= rest);
        assert(seq![all[0]] + (seq![low] + before_nul(rest)) =~= units_of(c) + before_nul(rest));
    }
}

proof fn lemma_before_nul(s: Seq<char>, rest: Seq<u16>)
    requires
        !s.contains('\0'),
    ensures
        before_nul(encode16(s) + rest) == encode16(s) + before_nul(rest),
    decreases s.len(),
{
    if s.len() > 0 {
        let tail = encode16(s.drop_first());
        assert(s.contains(s[0]));
        assert forall|i: int| 0 <= i < s.drop_first().len() implies s.drop_first()[i] != '\0' by {
            assert(s.contains(s[i + 1]));
        }
        lemma_before_nul(s.drop_first(), rest);
        lemma_before_nul_char(s[0], tail + rest);
        assert(encode16(s) + rest =~= units_of(s[0]) + (tail + rest));
        assert(encode16(s) + before_nul(rest) =~= units_of(s[0]) + (tail + before_nul(rest)));
    } else {
        assert(encode16(s) + rest =~= rest);
        assert(encode16(s) + before_nul(rest) =~= before_nul(rest));
    }
}

/// What `wide_str` writes, `read_wide` reads back: a text without NUL comes out as it
/// went in, but for the white space around it.
pub proof fn law_wide_round_trip(s: Seq<char>)
    requires
        !s.contains('\0'),
    ensures
        wide_text(encode16(s).push(0)) == if trimmed(s).len() == 0 {
            None::<Seq<char>>
        } else {
            Some(trimmed(s))
        },
{
    lemma_before_nul(s, seq![0u16]);
    assert(encode16(s).push(0) =~= encode16(s) + seq![0u16]);
    assert(encode16(s) + before_nul(seq![0u16]) =~= encode16(s));
    law_utf16_round_trip(s);
}

/// A unit outside the surrogates is the character of that number.
pub proof fn law_plain_unit(u: u16, rest: Seq<u16>)
    requires
        u < 0xd800 || u > 0xdfff,
    ensures
        decode16(seq![u] + rest).len() == decode16(rest).len() + 1,
        decode16(seq![u] + rest)[0] as int == u as int,
        decode16(seq![u] + rest).skip(1) == decode16(rest),
{
    let all = seq![u] + rest;
    assert(all.skip(1) =~= rest);
    assert(decode16(all).skip(1) =~= decode16(rest));
}

/// A surrogate pair is one character, and the two halves give its number.
pub proof fn law_surrogate_pair(high: u16, low: u16, rest: Seq<u16>)
    requires
        0xd800 <= high <= 0xdbff,
        0xdc00 <= low <= 0xdfff,
    ensures
        decode16(seq![high, low] + rest).len() == decode16(rest).len() + 1,
        decode16(seq![high, low] + rest)[0] as int == 0x10000 + (high - 0xd800) * 0x400 + (low
            - 0xdc00),
        decode16(seq![high, low] + rest).skip(1) == decode16(rest),
{
    let all = seq![high, low] + rest;
    assert(all.skip(2) =~= rest);
    assert(decode16(all).skip(1) =~= decode16(rest));
}

/// A surrogate without its partner is the replacement character, and what is behind it is
/// read as if it were not there.
pub proof fn law_lone_surrogate(u: u16, rest: Seq<u16>)
    requires
        0xd800 <= u <= 0xdfff,
        u >= 0xdc00 || rest.len() == 0 || rest[0] < 0xdc00 || rest[0] > 0xdfff,
    ensures
        decode16(seq![u] + rest) == seq!['\u{fffd}'] + decode16(rest),
{
    let all = seq![u] + rest;
    assert(all.skip(1) =~= rest);
    if rest.len() > 0 {
        assert(all[1] == rest[0]);
    }
}

/// Text is encoded character by character: one unit of the same number up to 0xffff, and a
/// surrogate pair beyond.
pub proof fn law_units_of_a_text(c: char, rest: Seq<char>)
    ensures
        encode16(Seq::empty()).len() == 0,
        (c as int) < 0x10000 ==> encode16(seq![c] + rest) == seq![c as u16] + encode16(rest),
        c as int >= 0x10000 ==> {
            let u = encode16(seq![c] + rest);
            &&& u.len() == encode16(rest).len() + 2
            &&& 0xd800 <= u[0] <= 0xdbff
            &&& 0xdc00 <= u[1] <= 0xdfff
            &&& 0x10000 + (u[0] - 0xd800) * 0x400 + (u[1] - 0xdc00) == c as int
            &&& u.skip(2) == encode16(rest)
        },
{
    let all = seq![c] + rest;
    assert(all.drop_first() =~= rest);
    if c as int >= 0x10000 {
        assert(encode16(all).skip(2) =~= encode16(rest));
    }
}

/// A buffer is read up to its first NUL, at `n`, or to its end where it has none.
pub proof fn law_before_nul(u: Seq<u16>, n: int)
    requires
        0 <= n <= u.len(),
        forall|i: int| 0 <= i < n ==> #[trigger] u[i] != 0,
        n == u.len() || u[n] == 0,
    ensures
        before_nul(u) == u.take(n),
    decreases n,
{
    if n > 0 {
        let tail = u.drop_first();
        assert(u[0] != 0);
        assert forall|i: int| 0 <= i < n - 1 implies #[trigger] tail[i] != 0 by {
            assert(u[i + 1] != 0);
        }
        law_before_nul(tail, n - 1);
        assert(seq![u[0]] + tail.take(n - 1) =~= u.take(n));
    } else {
        assert(before_nul(u) =~= u.take(0));
    }
}

/// The text of a buffer is what stands before its first NUL, at `n`, without the white space
/// around it; a blank buffer has none.
pub proof fn law_text_of_a_buffer(u: Seq<u16>, n: int)
    requires
        0 <= n <= u.len(),
        forall|i: int| 0 <= i < n ==> #[trigger] u[i] != 0,
        n == u.len() || u[n] == 0,
    ensures
        trimmed(decode16(u.take(n))).len() == 0 ==> wide_text(u) is None,
        trimmed(decode16(u.take(n))).len() > 0 ==> wide_text(u) == Some(
            trimmed(decode16(u.take(n))),
        ),
{
    law_before_nul(u, n);
}

} // verus!
