//! Text in UTF-16, as the system takes and gives it.

use vstd::prelude::*;

verus! {

/// `char::from_u32` of the standard library: the character with the given code,
/// where the code is that of one.
pub assume_specification[ char::from_u32 ](i: u32) -> (r: Option<char>)
    ensures
        r is Some <==> i <= 0xD7FF || 0xE000 <= i <= 0x10FFFF,
        r matches Some(c) ==> c as u32 == i,
;

/// The units of one character: one, or a high and a low surrogate.
pub open spec fn units(c: char) -> Seq<u16> {
    let n = c as u32;
    if n < 0x1_0000 {
        seq![n as u16]
    } else {
        seq![(0xD800 + (n - 0x1_0000) / 0x400) as u16, (0xDC00 + (n - 0x1_0000) % 0x400) as u16]
    }
}

/// The units of a text.
pub open spec fn encoded(s: Seq<char>) -> Seq<u16>
    decreases s.len(),
{
    if s.len() == 0 {
        Seq::empty()
    } else {
        encoded(s.drop_last()) + units(s.last())
    }
}

/// Whether a unit is the first of a pair.
pub open spec fn is_high(u: u16) -> bool {
    0xD800 <= u <= 0xDBFF
}

/// Whether a unit is the second of a pair.
pub open spec fn is_low(u: u16) -> bool {
    0xDC00 <= u <= 0xDFFF
}

/// The text that the units from `i` on stand for. A surrogate without its other
/// half is replaced by the replacement character.
pub open spec fn decoded_from(u: Seq<u16>, i: int) -> Seq<char>
    decreases u.len() - i,
{
    if i < 0 || i >= u.len() {
        Seq::empty()
    } else if is_high(u[i]) && i + 1 < u.len() && is_low(u[i + 1]) {
        seq![(0x1_0000 + (u[i] - 0xD800) * 0x400 + (u[i + 1] - 0xDC00)) as char] + decoded_from(
            u,
            i + 2,
        )
    } else if is_high(u[i]) || is_low(u[i]) {
        seq!['\u{FFFD}'] + decoded_from(u, i + 1)
    } else {
        seq![u[i] as char] + decoded_from(u, i + 1)
    }
}

/// The text that the units stand for.
pub open spec fn decoded(u: Seq<u16>) -> Seq<char> {
    decoded_from(u, 0)
}

proof fn lemma_encoded_cons(c: char, s: Seq<char>)
    ensures
        encoded(seq![c] + s) == units(c) + encoded(s),
    decreases s.len(),
{
    let t = seq![c] + s;
    if s.len() == 0 {
        assert(t.drop_last() =~= Seq::empty());
        assert(encoded(t.drop_last()) =~= Seq::empty());
        assert(t.last() == c);
        assert(encoded(t) =~= units(c) + encoded(s));
    } else {
        lemma_encoded_cons(c, s.drop_last());
        assert(t.drop_last() =~= seq![c] + s.drop_last());
        assert(encoded(t) =~= units(c) + encoded(s));
    }
}

proof fn lemma_decoded_shift(a: Seq<u16>, b: Seq<u16>, i: int)
    requires
        0 <= i <= b.len(),
    ensures
        decoded_from(a + b, a.len() + i) == decoded_from(b, i),
    decreases b.len() - i,
{
    if i < b.len() {
        if is_high(b[i]) && i + 1 < b.len() && is_low(b[i + 1]) {
            lemma_decoded_shift(a, b, i + 2);
        } else {
            lemma_decoded_shift(a, b, i + 1);
        }
    }
}

proof fn lemma_decoded_units(c: char, rest: Seq<u16>)
    ensures
        decoded(units(c) + rest) == seq![c] + decoded_from(units(c) + rest, units(c).len() as int),
{
    let u = units(c);
    let n = c as u32;
    let all = u + rest;
    vstd::utf8::char_is_scalar(c);
    vstd::utf8::char_u32_cast(c, n);
    assert(all[0] == u[0]);
    if n >= 0x1_0000 {
        assert(all[1] == u[1]);
        assert(u[0] == 0xD800 + (n - 0x1_0000) / 0x400);
        assert(u[1] == 0xDC00 + (n - 0x1_0000) % 0x400);
        assert(is_high(u[0]) && is_low(u[1]));
        assert(0x1_0000 + (u[0] - 0xD800) * 0x400 + (u[1] - 0xDC00) == n);
    } else {
        assert(u[0] == n);
    }
}

/// A text that was encoded is decoded to itself.
pub proof fn law_wide_round_trip(s: Seq<char>)
    ensures
        decoded(encoded(s)) == s,
    decreases s.len(),
{
    if s.len() > 0 {
        let c = s[0];
        let t = s.skip(1);
        assert(s =~= seq![c] + t);
        lemma_encoded_cons(c, t);
        law_wide_round_trip(t);
        let u = units(c);
        lemma_decoded_shift(u, encoded(t), 0);
        lemma_decoded_units(c, encoded(t));
        assert(decoded(encoded(s)) =~= s);
    } else {
        assert(decoded(encoded(s)) =~= s);
    }
}

/// Puts the units of a character at the end of `out`.
fn push_units(out: &mut Vec<u16>, c: char)
    ensures
        final(out)@ == old(out)@ + units(c),
{
    let n: u32 = c as u32;
    if n < 0x1_0000 {
        out.push(n as u16);
    } else {
        let m: u32 = n - 0x1_0000;
        out.push((0xD800 + m / 0x400) as u16);
        out.push((0xDC00 + m % 0x400) as u16);
    }
    assert(out@ =~= old(out)@ + units(c));
}

/// The units of a text.
pub fn encode(s: &str) -> (r: Vec<u16>)
    ensures
        r@ == encoded(s@),
{
    let mut out: Vec<u16> = Vec::new();
    let ghost mut seen: Seq<char> = Seq::empty();
    for c in it: s.chars()
        invariant
            it.seq() == s@,
            seen == s@.take(it.index() as int),
            it.index() == s@.len() ==> seen =~= s@,
            out@ == encoded(seen),
    {
        push_units(&mut out, c);
        proof {
            assert(seen.push(c).drop_last() =~= seen);
            seen = seen.push(c);
        }
    }
    out
}

/// A text as units with a zero at the end.
pub fn wide(s: &str) -> (r: Vec<u16>)
    ensures
        r@ == encoded(s@).push(0),
{
    let mut out: Vec<u16> = encode(s);
    out.push(0);
    out
}

/// The character with the given code.
pub(crate) fn char_at(n: u32) -> (c: char)
    requires
        n <= 0xD7FF || 0xE000 <= n <= 0x10FFFF,
    ensures
        c == n as char,
{
    match char::from_u32(n) {
        Some(c) => {
            proof {
                vstd::utf8::char_u32_cast(c, n);
            }
            c
        },
        None => ' ',
    }
}

/// The text that the units stand for. A surrogate without its other half is
/// replaced by the replacement character.
pub fn decode_lossy(u: &[u16]) -> (r: String)
    ensures
        r@ == decoded(u@),
{
    let mut s = String::new();
    let mut i: usize = 0;
    while i < u.len()
        invariant
            i <= u@.len(),
            decoded(u@) == s@ + decoded_from(u@, i as int),
        decreases u@.len() - i,
    {
        let a: u16 = u[i];
        let ghost before = s@;
        let ghost from = i as int;
        if 0xD800 <= a && a <= 0xDBFF && u.len() - i > 1 && 0xDC00 <= u[i + 1] && u[i + 1]
            <= 0xDFFF {
            let b: u16 = u[i + 1];
            let c: char = char_at(0x1_0000 + (a as u32 - 0xD800) * 0x400 + (b as u32 - 0xDC00));
            s.push(c);
            i += 2;
        } else if 0xD800 <= a && a <= 0xDFFF {
            s.push('\u{FFFD}');
            i += 1;
        } else {
            s.push(char_at(a as u32));
            i += 1;
        }
        assert(before + decoded_from(u@, from) =~= s@ + decoded_from(u@, i as int));
    }
    assert(s@ + decoded_from(u@, i as int) =~= s@);
    s
}

/// How many units of a text go into a buffer of `len` units with a zero behind
/// them.
pub open spec fn filled_len(s: Seq<char>, len: int) -> int {
    if encoded(s).len() < len {
        encoded(s).len() as int
    } else {
        len - 1
    }
}

/// Writes a text into a buffer of fixed length, cut off where it is too long,
/// with a zero behind it. What follows in the buffer stays.
pub fn fill_u16(dst: &mut [u16], s: &str)
    requires
        old(dst)@.len() > 0,
    ensures
        final(dst)@ == encoded(s@).take(filled_len(s@, old(dst)@.len() as int)).push(0) + old(
            dst,
        )@.skip(filled_len(s@, old(dst)@.len() as int) + 1),
{
    let src: Vec<u16> = encode(s);
    let len: usize = dst.len();
    let n: usize = if src.len() < len {
        src.len()
    } else {
        len - 1
    };
    let mut i: usize = 0;
    while i < n
        invariant
            i <= n < len,
            n <= src@.len(),
            len == old(dst)@.len(),
            dst@ == src@.take(i as int) + old(dst)@.skip(i as int),
        decreases n - i,
    {
        dst[i] = src[i];
        i += 1;
        assert(dst@ =~= src@.take(i as int) + old(dst)@.skip(i as int));
    }
    dst[n] = 0;
    assert(dst@ =~= src@.take(n as int).push(0) + old(dst)@.skip(n + 1));
}

/// A text is put in units character by character: one below 0x10000 is one unit,
/// its own number, and another is a high and a low surrogate that hold what the
/// number exceeds 0x10000 by, ten bits each.
pub proof fn law_units_of_a_text(a: Seq<char>, c: char)
    ensures
        encoded(a.push(c)).take(encoded(a).len() as int) == encoded(a),
        ({
            let more = encoded(a.push(c)).skip(encoded(a).len() as int);
            let n = c as u32;
            &&& n < 0x1_0000 ==> more.len() == 1 && more[0] == n
            &&& n >= 0x1_0000 ==> more.len() == 2 && 0xD800 <= more[0] < 0xDC00 && 0xDC00 <= more[1]
                < 0xE000 && (more[0] - 0xD800) * 1024 + (more[1] - 0xDC00) + 0x1_0000 == n
        }),
        encoded(Seq::empty()) == Seq::<u16>::empty(),
{
    let n = c as u32;
    vstd::utf8::char_is_scalar(c);
    assert(a.push(c).drop_last() =~= a);
    assert(encoded(a.push(c)).take(encoded(a).len() as int) =~= encoded(a));
    assert(encoded(a.push(c)).skip(encoded(a).len() as int) =~= units(c));
}

/// A unit that is no surrogate is the character with that number, and a surrogate
/// without its other half is the replacement character, wherever it stands before
/// something that is no other half of it.
pub proof fn law_lone_units(u: u16, rest: Seq<u16>)
    ensures
        !(0xD800 <= u < 0xE000) ==> decoded(seq![u] + rest) == seq![u as char] + decoded(rest),
        0xDC00 <= u < 0xE000 ==> decoded(seq![u] + rest) == seq!['\u{FFFD}'] + decoded(rest),
        0xD800 <= u < 0xDC00 && (rest.len() == 0 || !(0xDC00 <= rest[0] < 0xE000)) ==> decoded(
            seq![u] + rest,
        ) == seq!['\u{FFFD}'] + decoded(rest),
        decoded(Seq::empty()) == Seq::<char>::empty(),
{
    lemma_decoded_behind(u, rest, 0);
    let all = seq![u] + rest;
    assert(all[0] == u);
    if rest.len() > 0 {
        assert(all[1] == rest[0]);
    }
}

proof fn lemma_decoded_behind(u: u16, rest: Seq<u16>, i: int)
    requires
        0 <= i,
    ensures
        decoded_from(seq![u] + rest, i + 1) == decoded_from(rest, i),
    decreases rest.len() - i,
{
    let all = seq![u] + rest;
    if i < rest.len() {
        assert(all[i + 1] == rest[i]);
        lemma_decoded_behind(u, rest, i + 1);
        if i + 1 < rest.len() {
            assert(all[i + 2] == rest[i + 1]);
            lemma_decoded_behind(u, rest, i + 2);
        }
    }
}

/// A text in a buffer keeps as many units as leave place for a zero.
pub proof fn law_buffer_keeps_what_fits(s: Seq<char>, len: int)
    requires
        len > 0,
    ensures
        0 <= filled_len(s, len) < len,
        encoded(s).len() < len ==> filled_len(s, len) == encoded(s).len(),
        encoded(s).len() >= len ==> filled_len(s, len) == len - 1,
{
}

} // verus!
