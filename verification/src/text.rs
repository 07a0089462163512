//! Text: decoding, and what the library takes from the standard library.

use vstd::prelude::*;

use crate::ascii::eq_bytes;
use crate::wide::char_at;

verus! {

/// What `String::from_utf8_lossy` makes of `bytes`.
pub uninterp spec fn utf8_lossy(bytes: Seq<u8>) -> Seq<char>;

/// `String::push` of the standard library: puts one character at the end.
pub assume_specification[ String::push ](s: &mut String, ch: char)
    ensures
        final(s)@ == old(s)@.push(ch),
;

/// `String::from_utf8_lossy` of the standard library. Bytes that are UTF-8 are
/// decoded as they are; what it puts in the place of other bytes goes by the
/// name [`utf8_lossy`].
#[verifier::external_body]
pub(crate) fn decode_lossy(bytes: &[u8]) -> (r: String)
    ensures
        r@ == utf8_lossy(bytes@),
        vstd::utf8::valid_utf8(bytes@) ==> r@ == vstd::utf8::decode_utf8(bytes@),
{
    String::from_utf8_lossy(bytes).into_owned()
}

/// Puts the characters of `t` at the end of `s`.
pub fn push_text(s: &mut String, t: &str)
    ensures
        final(s)@ == old(s)@ + t@,
{
    s.append(t);
}

/// The parts with `sep` between any two of them.
pub open spec fn joined(parts: Seq<Seq<char>>, sep: char) -> Seq<char>
    decreases parts.len(),
{
    if parts.len() == 0 {
        Seq::empty()
    } else if parts.len() == 1 {
        parts[0]
    } else {
        joined(parts.drop_last(), sep) + seq![sep] + parts.last()
    }
}

/// Puts the parts one after the other behind `head`, with `sep` between any two
/// of them.
pub fn join_parts(head: String, parts: &[String], sep: char) -> (r: String)
    ensures
        r@ == head@ + joined(string_views(parts@), sep),
{
    let ghost all = string_views(parts@);
    let ghost start = head@;
    let mut s = head;
    let mut i: usize = 0;
    assert(s@ =~= start + joined(all.take(0), sep));
    while i < parts.len()
        invariant
            i <= parts@.len(),
            all == string_views(parts@),
            s@ == start + joined(all.take(i as int), sep),
        decreases parts@.len() - i,
    {
        let ghost so_far = joined(all.take(i as int), sep);
        if i > 0 {
            s.push(sep);
        }
        push_text(&mut s, parts[i].as_str());
        proof {
            let t = all.take(i + 1);
            assert(t.drop_last() =~= all.take(i as int));
            assert(t.last() == parts@[i as int]@);
            if i > 0 {
                assert(s@ =~= start + (so_far + seq![sep] + parts@[i as int]@));
            } else {
                assert(s@ =~= start + parts@[i as int]@);
            }
        }
        i += 1;
    }
    assert(all.take(i as int) =~= all);
    s
}

/// A character with an ASCII small letter raised to its capital.
pub open spec fn upper_char(c: char) -> char {
    if 'a' <= c && c <= 'z' {
        (c as u32 - 32) as char
    } else {
        c
    }
}

/// A character with an ASCII small letter raised to its capital.
pub fn to_upper_char(c: char) -> (r: char)
    ensures
        r == upper_char(c),
{
    if 'a' <= c && c <= 'z' {
        char_at(c as u32 - 32)
    } else {
        c
    }
}

/// A character with an ASCII capital lowered to its small letter.
pub open spec fn lower_char(c: char) -> char {
    if 'A' <= c && c <= 'Z' {
        (c as u32 + 32) as char
    } else {
        c
    }
}

/// A character with an ASCII capital lowered to its small letter.
pub fn to_lower_char(c: char) -> (r: char)
    ensures
        r == lower_char(c),
{
    if 'A' <= c && c <= 'Z' {
        char_at(c as u32 + 32)
    } else {
        c
    }
}

/// Whether two texts are the same.
pub fn eq_str(a: &str, b: &str) -> (r: bool)
    ensures
        r == (a@ == b@),
{
    proof {
        vstd::utf8::encode_utf8_decode_utf8(a@);
        vstd::utf8::encode_utf8_decode_utf8(b@);
    }
    eq_bytes(a.as_bytes(), b.as_bytes())
}

/// The texts of a list.
pub open spec fn string_views(v: Seq<String>) -> Seq<Seq<char>> {
    Seq::new(v.len(), |i: int| v[i]@)
}

/// A copy of a list of texts.
pub fn copy_strings(v: &[String]) -> (r: Vec<String>)
    ensures
        string_views(r@) == string_views(v@),
{
    let mut out: Vec<String> = Vec::new();
    let mut i: usize = 0;
    while i < v.len()
        invariant
            i <= v@.len(),
            out@.len() == i,
            forall|k: int| 0 <= k < i ==> (#[trigger] out@[k])@ == v@[k]@,
        decreases v@.len() - i,
    {
        out.push(v[i].clone());
        i += 1;
    }
    assert(string_views(out@) =~= string_views(v@));
    out
}

/// The digit of a number below ten.
pub open spec fn digit(n: nat) -> char {
    (48 + n) as char
}

/// A number in decimal digits.
pub open spec fn decimal(n: nat) -> Seq<char>
    decreases n,
{
    if n < 10 {
        seq![digit(n)]
    } else {
        decimal(n / 10).push(digit(n % 10))
    }
}

/// A number in decimal digits.
pub fn to_decimal(n: u64) -> (r: String)
    ensures
        r@ == decimal(n as nat),
    decreases n,
{
    let mut s = if n < 10 {
        String::new()
    } else {
        to_decimal(n / 10)
    };
    s.push(char_at(48 + (n % 10) as u32));
    assert(n < 10 ==> s@ =~= seq![digit(n as nat)]);
    s
}

/// The number that a run of decimal digits stands for.
pub open spec fn from_decimal(s: Seq<char>) -> nat
    decreases s.len(),
{
    if s.len() == 0 {
        0
    } else {
        from_decimal(s.drop_last()) * 10 + (s.last() as int - 48) as nat
    }
}

/// Whether a character is a decimal digit.
pub open spec fn is_digit(c: char) -> bool {
    '0' <= c && c <= '9'
}

/// Whether `part` stands somewhere in `s`.
pub open spec fn contains(s: Seq<char>, part: Seq<char>) -> bool {
    exists|at: int| occurs(s, part, at)
}

/// Whether `part` stands in `s` at `at`.
pub open spec fn occurs(s: Seq<char>, part: Seq<char>, at: int) -> bool {
    0 <= at && at + part.len() <= s.len() && s.subrange(at, at + part.len()) == part
}

/// Whether `part` stands somewhere in `s`.
pub fn contains_text(s: &str, part: &str) -> (r: bool)
    ensures
        r == contains(s@, part@),
{
    let hay: Vec<char> = to_chars(s);
    let needle: Vec<char> = to_chars(part);
    if needle.len() > hay.len() {
        return false;
    }
    let last: usize = hay.len() - needle.len();
    let mut at: usize = 0;
    while at <= last
        invariant
            at <= last + 1,
            last + needle@.len() == hay@.len(),
            hay@ == s@,
            needle@ == part@,
            forall|k: int| 0 <= k < at ==> !occurs(s@, part@, k),
        decreases last + 1 - at,
    {
        let mut j: usize = 0;
        while j < needle.len() && hay[at + j] == needle[j]
            invariant
                at <= last,
                j <= needle@.len(),
                last + needle@.len() == hay@.len(),
                hay@.len() == hay.len(),
                forall|k: int| 0 <= k < j ==> #[trigger] hay@[at + k] == needle@[k],
            decreases needle@.len() - j,
        {
            j += 1;
        }
        if j == needle.len() {
            assert forall|k: int| 0 <= k < part@.len() implies s@.subrange(
                at as int,
                at + part@.len(),
            )[k] == part@[k] by {
                assert(hay@[at + k] == needle@[k]);
            }
            assert(s@.subrange(at as int, at + part@.len()) =~= part@);
            assert(occurs(s@, part@, at as int));
            return true;
        }
        proof {
            if occurs(s@, part@, at as int) {
                assert(s@.subrange(at as int, at + part@.len())[j as int] == part@[j as int]);
            }
        }
        at += 1;
    }
    false
}

/// Whether a text is a run of decimal digits.
pub open spec fn all_digits(s: Seq<char>) -> bool {
    s.len() > 0 && forall|i: int| 0 <= i < s.len() ==> is_digit(#[trigger] s[i])
}

/// A number that was written in digits is read back.
pub proof fn law_decimal_round_trip(n: nat)
    ensures
        all_digits(decimal(n)),
        from_decimal(decimal(n)) == n,
    decreases n,
{
    if n < 10 {
        assert(decimal(n).drop_last() =~= Seq::empty());
        assert(from_decimal(decimal(n).drop_last()) == 0);
    } else {
        law_decimal_round_trip(n / 10);
        let s = decimal(n);
        assert(s.drop_last() =~= decimal(n / 10));
        assert forall|i: int| 0 <= i < s.len() implies is_digit(#[trigger] s[i]) by {
            if i < s.len() - 1 {
                assert(s[i] == decimal(n / 10)[i]);
            }
        }
    }
}

/// Whether a character is white space: it has the property `White_Space` of
/// Unicode.
pub open spec fn is_space(c: char) -> bool {
    let n = c as u32;
    ||| 0x09 <= n <= 0x0D
    ||| n == 0x20
    ||| n == 0x85
    ||| n == 0xA0
    ||| n == 0x1680
    ||| 0x2000 <= n <= 0x200A
    ||| n == 0x2028
    ||| n == 0x2029
    ||| n == 0x202F
    ||| n == 0x205F
    ||| n == 0x3000
}

/// Whether a character is white space.
pub fn is_space_char(c: char) -> (r: bool)
    ensures
        r == is_space(c),
{
    let n: u32 = c as u32;
    (0x09 <= n && n <= 0x0D) || n == 0x20 || n == 0x85 || n == 0xA0 || n == 0x1680 || (0x2000 <= n
        && n <= 0x200A) || n == 0x2028 || n == 0x2029 || n == 0x202F || n == 0x205F || n == 0x3000
}

/// A text without the white space that it begins with.
pub open spec fn without_lead(s: Seq<char>) -> Seq<char>
    decreases s.len(),
{
    if s.len() > 0 && is_space(s[0]) {
        without_lead(s.skip(1))
    } else {
        s
    }
}

/// A text without the white space that it ends with.
pub open spec fn without_tail(s: Seq<char>) -> Seq<char>
    decreases s.len(),
{
    if s.len() > 0 && is_space(s.last()) {
        without_tail(s.drop_last())
    } else {
        s
    }
}

/// A text without the white space around it.
pub open spec fn trimmed(s: Seq<char>) -> Seq<char> {
    without_tail(without_lead(s))
}

/// The characters of a text.
pub fn to_chars(s: &str) -> (r: Vec<char>)
    ensures
        r@ == s@,
{
    let mut out: Vec<char> = Vec::new();
    for c in it: s.chars()
        invariant
            it.seq() == s@,
            out@ == s@.take(it.index() as int),
            it.index() == s@.len() ==> out@ =~= s@,
    {
        out.push(c);
    }
    out
}

/// The text of some characters.
pub fn of_chars(cs: &[char]) -> (r: String)
    ensures
        r@ == cs@,
{
    let mut s = String::new();
    let mut i: usize = 0;
    while i < cs.len()
        invariant
            i <= cs@.len(),
            s@ == cs@.take(i as int),
        decreases cs@.len() - i,
    {
        s.push(cs[i]);
        i += 1;
        assert(s@ =~= cs@.take(i as int));
    }
    assert(cs@.take(i as int) =~= cs@);
    s
}

/// A text without the white space around it.
pub fn trim(s: &str) -> (r: String)
    ensures
        r@ == trimmed(s@),
{
    let cs: Vec<char> = to_chars(s);
    let mut i: usize = 0;
    assert(cs@.skip(0) =~= cs@);
    while i < cs.len() && is_space_char(cs[i])
        invariant
            i <= cs@.len(),
            without_lead(cs@.skip(i as int)) == without_lead(cs@),
        decreases cs@.len() - i,
    {
        assert(cs@.skip(i as int)[0] == cs@[i as int]);
        assert(cs@.skip(i as int).skip(1) =~= cs@.skip(i + 1));
        i += 1;
    }
    let ghost rest = cs@.skip(i as int);
    assert(rest == without_lead(cs@)) by {
        if i < cs@.len() {
            assert(rest[0] == cs@[i as int]);
        }
    }
    let mut j: usize = cs.len();
    assert(cs@.subrange(i as int, j as int) =~= rest);
    while j > i && is_space_char(cs[j - 1])
        invariant
            i <= j <= cs@.len(),
            without_tail(cs@.subrange(i as int, j as int)) == without_tail(rest),
        decreases j,
    {
        assert(cs@.subrange(i as int, j as int).drop_last() =~= cs@.subrange(
            i as int,
            j - 1,
        ));
        j -= 1;
    }
    of_chars(vstd::slice::slice_subrange(cs.as_slice(), i, j))
}

/// A text that was trimmed neither begins nor ends with white space, and
/// trimming it again changes nothing.
pub proof fn law_trim_is_final(s: Seq<char>)
    ensures
        trimmed(trimmed(s)) == trimmed(s),
        trimmed(s).len() > 0 ==> !is_space(trimmed(s)[0]) && !is_space(trimmed(s).last()),
{
    let a = without_lead(s);
    lemma_lead(s);
    lemma_tail(a);
}

proof fn lemma_lead(s: Seq<char>)
    ensures
        without_lead(s).len() > 0 ==> !is_space(without_lead(s)[0]),
    decreases s.len(),
{
    if s.len() > 0 && is_space(s[0]) {
        lemma_lead(s.skip(1));
    }
}

proof fn lemma_tail(s: Seq<char>)
    ensures
        without_tail(s).len() > 0 ==> !is_space(without_tail(s).last()) && without_tail(s)[0] == s[0],
        without_tail(s).len() <= s.len(),
    decreases s.len(),
{
    if s.len() > 0 && is_space(s.last()) {
        lemma_tail(s.drop_last());
    }
}

/// The digits of a number that is written with or without a plus sign.
pub open spec fn unsigned_digits(s: Seq<char>) -> Seq<char> {
    if s.len() > 0 && s[0] == '+' {
        s.skip(1)
    } else {
        s
    }
}

/// The number that a text stands for: decimal digits, with or without a plus
/// sign before them, that are no larger than a `usize` can be.
pub open spec fn parsed_usize(s: Seq<char>) -> Option<nat> {
    let d = unsigned_digits(s);
    if all_digits(d) && from_decimal(d) <= usize::MAX {
        Some(from_decimal(d))
    } else {
        None
    }
}

proof fn lemma_from_decimal_grows(s: Seq<char>, k: int)
    requires
        0 <= k <= s.len(),
    ensures
        from_decimal(s.take(k)) <= from_decimal(s),
    decreases s.len() - k,
{
    if k < s.len() {
        lemma_from_decimal_grows(s, k + 1);
        assert(s.take(k + 1).drop_last() =~= s.take(k));
    } else {
        assert(s.take(k) =~= s);
    }
}

/// The number that a text stands for.
pub fn parse_usize(s: &str) -> (r: Option<usize>)
    ensures
        match r {
            Some(n) => parsed_usize(s@) == Some(n as nat),
            None => parsed_usize(s@) is None,
        },
{
    let cs: Vec<char> = to_chars(s);
    let start: usize = if cs.len() > 0 && cs[0] == '+' {
        1
    } else {
        0
    };
    let ghost d = unsigned_digits(s@);
    assert(d =~= cs@.skip(start as int));
    if cs.len() == start {
        return None;
    }
    let mut n: usize = 0;
    let mut i: usize = start;
    assert(d.take(0) =~= Seq::empty());
    while i < cs.len()
        invariant
            start <= i <= cs@.len(),
            d == cs@.skip(start as int),
            d == unsigned_digits(s@),
            forall|k: int| 0 <= k < i - start ==> is_digit(#[trigger] d[k]),
            n == from_decimal(d.take(i - start)),
        decreases cs@.len() - i,
    {
        let c: char = cs[i];
        let ghost j = i - start;
        proof {
            assert(d[j] == c);
            assert(d.take(j + 1).drop_last() =~= d.take(j));
            assert(d.take(j + 1).last() == c);
            lemma_from_decimal_grows(d, j + 1);
        }
        if c < '0' || c > '9' {
            return None;
        }
        let v: usize = (c as u32 - 48) as usize;
        assert(from_decimal(d.take(j + 1)) == n * 10 + v);
        match n.checked_mul(10) {
            None => {
                return None;
            },
            Some(m) => match m.checked_add(v) {
                None => {
                    return None;
                },
                Some(k) => {
                    n = k;
                },
            },
        }
        i += 1;
    }
    assert(d.take(i - start) =~= d);
    Some(n)
}

/// A number with one digit more is ten times the number and the digit; a number
/// below ten is its digit.
pub proof fn law_digits_of_a_number(n: nat, d: nat)
    requires
        d < 10,
    ensures
        n > 0 ==> decimal(10 * n + d) == decimal(n).push((48 + d) as char),
        decimal(d) == seq![(48 + d) as char],
        n > 0 ==> from_decimal(decimal(n).push((48 + d) as char)) == 10 * n + d,
{
    law_decimal_round_trip(n);
    assert((10 * n + d) / 10 == n && (10 * n + d) % 10 == d);
    assert(decimal(n).push((48 + d) as char).drop_last() =~= decimal(n));
}

/// A field is read as the number whose digits stand in it, a plus sign before them
/// or not, zeros before them or not, and as none where something else stands in it
/// or the number is too large.
pub proof fn law_number_is_read_back(n: nat, s: Seq<char>, zeros: nat)
    ensures
        n <= usize::MAX ==> parsed_usize(decimal(n)) == Some(n),
        n <= usize::MAX ==> parsed_usize(seq!['+'] + decimal(n)) == Some(n),
        n <= usize::MAX ==> parsed_usize(Seq::new(zeros, |i: int| '0') + decimal(n)) == Some(n),
        n > usize::MAX ==> parsed_usize(decimal(n)) is None,
        s.len() == 0 ==> parsed_usize(s) is None,
        (exists|i: int| 1 <= i < s.len() && !('0' <= #[trigger] s[i] && s[i] <= '9')) ==> parsed_usize(
            s,
        ) is None,
        s.len() > 0 && s[0] != '+' && !('0' <= s[0] && s[0] <= '9') ==> parsed_usize(s) is None,
{
    law_decimal_round_trip(n);
    let d = decimal(n);
    assert(is_digit(d[0]));
    assert(d[0] != '+');
    assert((seq!['+'] + d).skip(1) =~= d);
    let z = Seq::new(zeros, |i: int| '0') + d;
    lemma_zeros(d, zeros);
    assert forall|i: int| 0 <= i < z.len() implies is_digit(#[trigger] z[i]) by {
        if i >= zeros {
            assert(is_digit(d[i - zeros]));
        }
    }
    assert(is_digit(z[0]));
    if exists|i: int| 1 <= i < s.len() && !('0' <= #[trigger] s[i] && s[i] <= '9') {
        let i = choose|i: int| 1 <= i < s.len() && !('0' <= #[trigger] s[i] && s[i] <= '9');
        let u = unsigned_digits(s);
        if s[0] == '+' {
            assert(u[i - 1] == s[i]);
            assert(!is_digit(u[i - 1]));
        } else {
            assert(!is_digit(u[i]));
        }
    }
    if s.len() > 0 && s[0] != '+' && !('0' <= s[0] && s[0] <= '9') {
        assert(!is_digit(unsigned_digits(s)[0]));
    }
}

proof fn lemma_zeros(d: Seq<char>, zeros: nat)
    ensures
        from_decimal(Seq::new(zeros, |i: int| '0') + d) == from_decimal(d),
    decreases d.len(), zeros,
{
    let z = Seq::new(zeros, |i: int| '0') + d;
    if d.len() > 0 {
        lemma_zeros(d.drop_last(), zeros);
        assert(z.drop_last() =~= Seq::new(zeros, |i: int| '0') + d.drop_last());
    } else if zeros > 0 {
        lemma_zeros(d, (zeros - 1) as nat);
        assert(z.drop_last() =~= Seq::new((zeros - 1) as nat, |i: int| '0') + d);
        assert(z.last() == '0');
    }
}

/// Trimming takes away the white space around a text and nothing else.
pub proof fn law_trimming_takes_white_space_only(lead: Seq<char>, s: Seq<char>, tail: Seq<char>)
    requires
        forall|i: int| 0 <= i < lead.len() ==> is_space(#[trigger] lead[i]),
        forall|i: int| 0 <= i < tail.len() ==> is_space(#[trigger] tail[i]),
        s.len() > 0,
        !is_space(s[0]),
        !is_space(s.last()),
    ensures
        trimmed(lead + s + tail) == s,
        trimmed(lead).len() == 0,
{
    lemma_lead_goes(lead, s + tail);
    assert(lead + (s + tail) =~= lead + s + tail);
    assert((s + tail)[0] == s[0]);
    lemma_tail_goes(s, tail);
    lemma_all_lead(lead);
}

proof fn lemma_lead_goes(lead: Seq<char>, s: Seq<char>)
    requires
        forall|i: int| 0 <= i < lead.len() ==> is_space(#[trigger] lead[i]),
        s.len() > 0,
        !is_space(s[0]),
    ensures
        without_lead(lead + s) == s,
    decreases lead.len(),
{
    if lead.len() == 0 {
        assert(lead + s =~= s);
    } else {
        let rest = lead.skip(1);
        assert(is_space(lead[0]));
        assert forall|i: int| 0 <= i < rest.len() implies is_space(#[trigger] rest[i]) by {
            assert(is_space(lead[i + 1]));
        }
        lemma_lead_goes(rest, s);
        assert((lead + s).skip(1) =~= rest + s);
    }
}

proof fn lemma_all_lead(lead: Seq<char>)
    requires
        forall|i: int| 0 <= i < lead.len() ==> is_space(#[trigger] lead[i]),
    ensures
        without_lead(lead).len() == 0,
    decreases lead.len(),
{
    if lead.len() > 0 {
        let rest = lead.skip(1);
        assert(is_space(lead[0]));
        assert forall|i: int| 0 <= i < rest.len() implies is_space(#[trigger] rest[i]) by {
            assert(is_space(lead[i + 1]));
        }
        lemma_all_lead(rest);
    }
}

proof fn lemma_tail_goes(s: Seq<char>, tail: Seq<char>)
    requires
        forall|i: int| 0 <= i < tail.len() ==> is_space(#[trigger] tail[i]),
        s.len() > 0,
        !is_space(s.last()),
    ensures
        without_tail(s + tail) == s,
    decreases tail.len(),
{
    if tail.len() == 0 {
        assert(s + tail =~= s);
    } else {
        let rest = tail.drop_last();
        assert(is_space(tail[tail.len() - 1]));
        assert forall|i: int| 0 <= i < rest.len() implies is_space(#[trigger] rest[i]) by {
            assert(is_space(tail[i]));
        }
        lemma_tail_goes(s, rest);
        assert((s + tail).drop_last() =~= s + rest);
    }
}

/// White space is what Unicode says it is, these characters and no others.
pub proof fn law_white_space(c: char)
    ensures
        is_space(c) <==> {
            ||| '\t' <= c && c <= '\r'
            ||| c == ' '
            ||| c == '\u{85}'
            ||| c == '\u{A0}'
            ||| c == '\u{1680}'
            ||| '\u{2000}' <= c && c <= '\u{200A}'
            ||| c == '\u{2028}'
            ||| c == '\u{2029}'
            ||| c == '\u{202F}'
            ||| c == '\u{205F}'
            ||| c == '\u{3000}'
        },
{
    vstd::utf8::char_u32_cast(c, c as u32);
}

/// A text stands in another exactly where this is the text with something before
/// it and something behind it.
pub proof fn law_part_stands_between(before: Seq<char>, part: Seq<char>, behind: Seq<char>, s: Seq<char>)
    ensures
        contains(before + part + behind, part),
        contains(s, part) ==> exists|a: Seq<char>, b: Seq<char>| s == #[trigger] (a + part + b),
{
    let all = before + part + behind;
    let at = before.len() as int;
    assert(all.subrange(at, at + part.len()) =~= part);
    assert(occurs(all, part, before.len() as int));
    if contains(s, part) {
        let at = choose|at: int| occurs(s, part, at);
        let a = s.take(at);
        let b = s.skip(at + part.len());
        assert(s =~= a + part + b);
    }
}

/// Joined parts have the separator between any two of them and nowhere else.
pub proof fn law_parts_are_joined(parts: Seq<Seq<char>>, part: Seq<char>, sep: char)
    ensures
        joined(Seq::empty(), sep) == Seq::<char>::empty(),
        joined(seq![part], sep) == part,
        parts.len() > 0 ==> joined(parts.push(part), sep) == joined(parts, sep) + seq![sep] + part,
{
    assert(parts.push(part).drop_last() =~= parts);
}

/// The case of the letters of ASCII is changed and nothing else.
pub proof fn law_case_of_characters(c: char)
    ensures
        'a' <= c && c <= 'z' ==> upper_char(c) as u32 == c as u32 - 32,
        !('a' <= c && c <= 'z') ==> upper_char(c) == c,
        'A' <= c && c <= 'Z' ==> lower_char(c) as u32 == c as u32 + 32,
        !('A' <= c && c <= 'Z') ==> lower_char(c) == c,
{
}

} // verus!
