//! Patterns read character by character: on texts, matching bytes comes to
//! matching characters.

use vstd::prelude::*;

use crate::ascii;
use crate::pattern;
use crate::pattern::{QUESTION, STAR};
use crate::text;

verus! {

/// Whether the pattern `p` from position `j` on matches a part of the text `h`
/// that starts at character `i`. A star takes any number of characters, a
/// question mark any one, and another character itself, ASCII capitals lowered.
pub open spec fn matches_from(h: Seq<char>, i: int, p: Seq<char>, j: int) -> bool
    decreases p.len() - j, h.len() - i,
{
    if j < 0 || j >= p.len() {
        true
    } else if p[j] == '*' {
        matches_from(h, i, p, j + 1) || (i < h.len() && matches_from(h, i + 1, p, j))
    } else {
        i < h.len() && (p[j] == '?' || text::lower_char(h[i]) == p[j]) && matches_from(
            h,
            i + 1,
            p,
            j + 1,
        )
    }
}

/// Whether the pattern `p` matches some part of the text `h`.
pub open spec fn matches_somewhere(h: Seq<char>, p: Seq<char>) -> bool {
    exists|i: int| 0 <= i <= h.len() && #[trigger] matches_from(h, i, p, 0)
}

/// The bytes of a character.
pub open spec fn bytes_of(c: char) -> Seq<u8> {
    vstd::utf8::encode_scalar(c as u32)
}

/// Where the bytes of character `i` begin.
spec fn at(h: Seq<char>, i: int) -> int {
    vstd::utf8::encode_utf8(h.take(i)).len() as int
}

/// The first byte of a character says how many bytes it has, and the others go on
/// with it.
pub proof fn lemma_bytes_of(c: char)
    ensures
        1 <= bytes_of(c).len() <= 4,
        bytes_of(c).len() == 1 <==> (c as u32) < 0x80,
        bytes_of(c).len() == 1 ==> bytes_of(c)[0] == c as u32,
        bytes_of(c).len() == 2 ==> 0xC0 <= bytes_of(c)[0] <= 0xDF,
        bytes_of(c).len() == 3 ==> 0xE0 <= bytes_of(c)[0] <= 0xEF,
        bytes_of(c).len() == 4 ==> 0xF0 <= bytes_of(c)[0],
        !pattern::continues(bytes_of(c)[0]),
        forall|k: int| 1 <= k < bytes_of(c).len() ==> pattern::continues(#[trigger] bytes_of(c)[k]),
{
    let n = c as u32;
    vstd::utf8::char_is_scalar(c);
    assert(n < 0x80 ==> (n & 0x7F) as u8 == n) by (bit_vector);
    assert(0xC0 <= (0xC0 | ((n >> 6) & 0x1F) as u8) <= 0xDF) by (bit_vector);
    assert(0xE0 <= (0xE0 | ((n >> 12) & 0x0F) as u8) <= 0xEF) by (bit_vector);
    assert(0xF0 <= (0xF0 | ((n >> 18) & 0x7) as u8)) by (bit_vector);
    assert(0x80 <= (0x80 | (n & 0x3F) as u8) <= 0xBF) by (bit_vector);
    assert(0x80 <= (0x80 | ((n >> 6) & 0x3F) as u8) <= 0xBF) by (bit_vector);
    assert(0x80 <= (0x80 | ((n >> 12) & 0x3F) as u8) <= 0xBF) by (bit_vector);
}

/// The bytes of a text of one character are those of the character.
pub proof fn lemma_encode_one(c: char)
    ensures
        vstd::utf8::encode_utf8(seq![c]) == bytes_of(c),
{
    let one = seq![c];
    assert(one.drop_first() =~= Seq::empty());
    assert(vstd::utf8::encode_utf8(one.drop_first()) =~= Seq::<u8>::empty());
    assert(vstd::utf8::encode_utf8(one) =~= bytes_of(c));
}

/// The bytes of two texts joined are those of the one and then of the other.
pub proof fn lemma_encode_concat(a: Seq<char>, b: Seq<char>)
    ensures
        vstd::utf8::encode_utf8(a + b) == vstd::utf8::encode_utf8(a) + vstd::utf8::encode_utf8(b),
    decreases a.len(),
{
    if a.len() == 0 {
        assert(a + b =~= b);
        assert(vstd::utf8::encode_utf8(a) + vstd::utf8::encode_utf8(b)
            =~= vstd::utf8::encode_utf8(b));
    } else {
        let t = a.drop_first();
        lemma_encode_concat(t, b);
        assert((a + b).drop_first() =~= t + b);
        assert((a + b)[0] == a[0]);
        let head = vstd::utf8::encode_scalar(a[0] as u32);
        assert(head + (vstd::utf8::encode_utf8(t) + vstd::utf8::encode_utf8(b)) =~= (head
            + vstd::utf8::encode_utf8(t)) + vstd::utf8::encode_utf8(b));
    }
}

/// No other character has the same bytes.
proof fn lemma_bytes_differ(c: char, d: char)
    requires
        bytes_of(c) == bytes_of(d),
    ensures
        c == d,
{
    lemma_encode_one(c);
    lemma_encode_one(d);
    vstd::utf8::encode_utf8_decode_utf8(seq![c]);
    vstd::utf8::encode_utf8_decode_utf8(seq![d]);
    assert(seq![c][0] == seq![d][0]);
}

/// The bytes of character `i` stand where they begin, and the next begins behind
/// them.
proof fn lemma_at(h: Seq<char>, i: int)
    requires
        0 <= i < h.len(),
    ensures
        0 <= at(h, i),
        at(h, i + 1) == at(h, i) + bytes_of(h[i]).len(),
        at(h, i + 1) <= vstd::utf8::encode_utf8(h).len(),
        forall|k: int|
            0 <= k < bytes_of(h[i]).len() ==> vstd::utf8::encode_utf8(h)[at(h, i) + k]
                == #[trigger] bytes_of(h[i])[k],
        at(h, h.len() as int) == vstd::utf8::encode_utf8(h).len(),
        at(h, 0) == 0,
{
    let c = seq![h[i]];
    lemma_encode_one(h[i]);
    assert(h.take(i + 1) =~= h.take(i) + c);
    assert(h =~= (h.take(i) + c) + h.skip(i + 1));
    lemma_encode_concat(h.take(i), c);
    lemma_encode_concat(h.take(i) + c, h.skip(i + 1));
    assert(h.take(h.len() as int) =~= h);
    assert(h.take(0) =~= Seq::empty());
}

proof fn lemma_at_ends(h: Seq<char>)
    ensures
        at(h, h.len() as int) == vstd::utf8::encode_utf8(h).len(),
        at(h, 0) == 0,
{
    assert(h.take(h.len() as int) =~= h);
    assert(h.take(0) =~= Seq::empty());
}

proof fn lemma_at_grows(h: Seq<char>, i: int, k: int)
    requires
        0 <= i <= k <= h.len(),
    ensures
        at(h, i) <= at(h, k) <= vstd::utf8::encode_utf8(h).len(),
    decreases k - i,
{
    lemma_at_ends(h);
    if i < k {
        lemma_at(h, k - 1);
        lemma_at_grows(h, i, k - 1);
    } else if k > 0 {
        lemma_at(h, k - 1);
    }
}

/// The character whose bytes hold place `b`, counted from character `i` on.
proof fn lemma_char_at(h: Seq<char>, i: int, b: int) -> (m: int)
    requires
        0 <= i <= h.len(),
        at(h, i) <= b <= vstd::utf8::encode_utf8(h).len(),
    ensures
        i <= m <= h.len(),
        at(h, m) <= b,
        m < h.len() ==> b < at(h, m + 1),
        m == h.len() ==> b == at(h, m),
    decreases h.len() - i,
{
    lemma_at_ends(h);
    if i == h.len() || b < at(h, i + 1) {
        i
    } else {
        lemma_char_at(h, i + 1, b)
    }
}

proof fn lemma_char_end_at(s: Seq<u8>, b: int, e: int)
    requires
        0 <= b < e <= s.len(),
        forall|x: int| b < x < e ==> pattern::continues(#[trigger] s[x]),
        e == s.len() || !pattern::continues(s[e]),
    ensures
        pattern::char_end(s, b) == e,
    decreases e - b,
{
    if b + 1 < e {
        assert(pattern::continues(s[b + 1]));
        lemma_char_end_at(s, b + 1, e);
    }
}

/// From any byte of a character on, the character ends where the next begins.
proof fn lemma_char_end(h: Seq<char>, i: int, b: int)
    requires
        0 <= i < h.len(),
        at(h, i) <= b < at(h, i + 1),
    ensures
        pattern::char_end(vstd::utf8::encode_utf8(h), b) == at(h, i + 1),
        b > at(h, i) ==> pattern::continues(vstd::utf8::encode_utf8(h)[b]),
{
    let s = vstd::utf8::encode_utf8(h);
    let e = at(h, i + 1);
    lemma_at(h, i);
    lemma_bytes_of(h[i]);
    assert forall|x: int| at(h, i) < x < e implies pattern::continues(#[trigger] s[x]) by {
        assert(s[at(h, i) + (x - at(h, i))] == bytes_of(h[i])[x - at(h, i)]);
    }
    if i + 1 < h.len() {
        lemma_at(h, i + 1);
        lemma_bytes_of(h[i + 1]);
        assert(s[at(h, i + 1) + 0] == bytes_of(h[i + 1])[0]);
    }
    lemma_char_end_at(s, b, e);
}

/// The first byte of a pattern's character: the two wildcards have their own.
proof fn lemma_pattern_byte(p: Seq<char>, j: int)
    requires
        0 <= j < p.len(),
    ensures
        0 <= at(p, j) < vstd::utf8::encode_utf8(p).len(),
        vstd::utf8::encode_utf8(p)[at(p, j)] == bytes_of(p[j])[0],
        p[j] == '*' <==> bytes_of(p[j])[0] == STAR,
        p[j] == '?' <==> bytes_of(p[j])[0] == QUESTION,
        p[j] == '*' || p[j] == '?' ==> at(p, j + 1) == at(p, j) + 1,
        forall|k: int|
            0 <= k < bytes_of(p[j]).len() && p[j] != '*' && p[j] != '?' ==> #[trigger] bytes_of(p[j])[k]
                != STAR && bytes_of(p[j])[k] != QUESTION,
{
    let c = p[j];
    lemma_at(p, j);
    lemma_bytes_of(c);
    vstd::utf8::char_u32_cast(c, c as u32);
    assert(vstd::utf8::encode_utf8(p)[at(p, j) + 0] == bytes_of(c)[0]);
    assert forall|k: int| 0 <= k < bytes_of(c).len() && c != '*' && c != '?' implies #[trigger] bytes_of(
        c,
    )[k] != STAR && bytes_of(c)[k] != QUESTION by {
        if k > 0 {
            assert(pattern::continues(bytes_of(c)[k]));
        }
    }
}

/// A run of pattern bytes without a wildcard takes as many bytes, each itself.
proof fn lemma_literal(s: Seq<u8>, b: int, p: Seq<u8>, j: int, n: int)
    requires
        0 <= b,
        0 <= j,
        0 <= n,
        j + n <= p.len(),
        forall|x: int| j <= x < j + n ==> #[trigger] p[x] != STAR && p[x] != QUESTION,
    ensures
        pattern::glob_from(s, b, p, j) <==> (n == 0 || b + n <= s.len()) && (forall|k: int|
            0 <= k < n ==> ascii::lower(#[trigger] s[b + k]) == p[j + k]) && pattern::glob_from(
            s,
            b + n,
            p,
            j + n,
        ),
    decreases n,
{
    if n > 0 {
        assert(p[j] != STAR && p[j] != QUESTION);
        lemma_literal(s, b + 1, p, j + 1, n - 1);
        let all = forall|k: int| 0 <= k < n ==> ascii::lower(#[trigger] s[b + k]) == p[j + k];
        let rest = forall|k: int|
            0 <= k < n - 1 ==> ascii::lower(#[trigger] s[b + 1 + k]) == p[j + 1 + k];
        if all {
            assert(ascii::lower(s[b + 0]) == p[j + 0]);
            assert forall|k: int| 0 <= k < n - 1 implies ascii::lower(#[trigger] s[b + 1 + k])
                == p[j + 1 + k] by {
                assert(ascii::lower(s[b + (k + 1)]) == p[j + (k + 1)]);
            }
        }
        if rest && ascii::lower(s[b]) == p[j] {
            assert forall|k: int| 0 <= k < n implies ascii::lower(#[trigger] s[b + k]) == p[j
                + k] by {
                if k > 0 {
                    assert(ascii::lower(s[b + 1 + (k - 1)]) == p[j + 1 + (k - 1)]);
                }
            }
        }
    }
}

/// The bytes of a character, ASCII capitals lowered, are those of the character
/// lowered, and of no other.
proof fn lemma_same_char(h: Seq<char>, i: int, d: char)
    requires
        0 <= i < h.len(),
    ensures
        text::lower_char(h[i]) == d ==> at(h, i) + bytes_of(d).len() == at(h, i + 1),
        text::lower_char(h[i]) == d <==> at(h, i) + bytes_of(d).len() <= vstd::utf8::encode_utf8(
            h,
        ).len() && forall|k: int|
            0 <= k < bytes_of(d).len() ==> ascii::lower(
                #[trigger] vstd::utf8::encode_utf8(h)[at(h, i) + k],
            ) == bytes_of(d)[k],
{
    let c = h[i];
    let s = vstd::utf8::encode_utf8(h);
    lemma_at(h, i);
    lemma_bytes_of(c);
    lemma_bytes_of(d);
    vstd::utf8::char_u32_cast(c, c as u32);
    vstd::utf8::char_u32_cast(d, d as u32);
    let same = forall|k: int|
        0 <= k < bytes_of(d).len() ==> ascii::lower(#[trigger] s[at(h, i) + k]) == bytes_of(d)[k];
    assert(s[at(h, i) + 0] == bytes_of(c)[0]);
    if text::lower_char(c) == d {
        if (c as u32) < 0x80 {
            assert(bytes_of(d).len() == 1);
        } else {
            assert(c == d);
        }
        assert forall|k: int| 0 <= k < bytes_of(d).len() implies ascii::lower(
            #[trigger] s[at(h, i) + k],
        ) == bytes_of(d)[k] by {
            assert(s[at(h, i) + k] == bytes_of(c)[k]);
            if k > 0 {
                assert(pattern::continues(bytes_of(c)[k]));
            }
        }
    }
    if same {
        assert(ascii::lower(s[at(h, i) + 0]) == bytes_of(d)[0]);
        if bytes_of(d).len() == 1 {
            assert(bytes_of(c).len() == 1);
        } else {
            assert(bytes_of(c)[0] == bytes_of(d)[0]);
            assert(bytes_of(c).len() == bytes_of(d).len());
            assert forall|k: int| 0 <= k < bytes_of(d).len() implies bytes_of(c)[k] == bytes_of(
                d,
            )[k] by {
                assert(ascii::lower(s[at(h, i) + k]) == bytes_of(d)[k]);
                assert(s[at(h, i) + k] == bytes_of(c)[k]);
                if k > 0 {
                    assert(pattern::continues(bytes_of(c)[k]));
                }
            }
            assert(bytes_of(c) =~= bytes_of(d));
            lemma_bytes_differ(c, d);
        }
    }
}

/// A match that starts within a character starts at the character too.
proof fn lemma_start_of_char(h: Seq<char>, i: int, b: int, p: Seq<char>, j: int)
    requires
        0 <= i < h.len(),
        at(h, i) <= b < at(h, i + 1),
        0 <= j <= p.len(),
        pattern::glob_from(vstd::utf8::encode_utf8(h), b, vstd::utf8::encode_utf8(p), at(p, j)),
    ensures
        pattern::glob_from(
            vstd::utf8::encode_utf8(h),
            at(h, i),
            vstd::utf8::encode_utf8(p),
            at(p, j),
        ),
{
    let s = vstd::utf8::encode_utf8(h);
    let q = vstd::utf8::encode_utf8(p);
    lemma_at_ends(p);
    lemma_at(h, i);
    if j < p.len() && b > at(h, i) {
        lemma_pattern_byte(p, j);
        lemma_bytes_of(p[j]);
        lemma_char_end(h, i, b);
        lemma_char_end(h, i, at(h, i));
        if p[j] == '*' {
            pattern::lemma_glob_star_earlier(s, at(h, i), b, q, at(p, j));
        }
    }
}

proof fn lemma_star_reaches(h: Seq<char>, i: int, m: int, p: Seq<char>, j: int)
    requires
        0 <= i <= m <= h.len(),
        0 <= j < p.len(),
        p[j] == '*',
        matches_from(h, m, p, j + 1),
    ensures
        matches_from(h, i, p, j),
    decreases m - i,
{
    if i < m {
        lemma_star_reaches(h, i + 1, m, p, j);
    }
}

proof fn lemma_by_characters(h: Seq<char>, i: int, p: Seq<char>, j: int)
    requires
        0 <= i <= h.len(),
        0 <= j <= p.len(),
    ensures
        pattern::glob_from(
            vstd::utf8::encode_utf8(h),
            at(h, i),
            vstd::utf8::encode_utf8(p),
            at(p, j),
        ) == matches_from(h, i, p, j),
    decreases p.len() - j, h.len() - i,
{
    let s = vstd::utf8::encode_utf8(h);
    let q = vstd::utf8::encode_utf8(p);
    let b = at(h, i);
    lemma_at_ends(h);
    lemma_at_ends(p);
    lemma_at_grows(h, i, h.len() as int);
    if j < p.len() {
        lemma_at(p, j);
        lemma_pattern_byte(p, j);
        if i < h.len() {
            lemma_at(h, i);
            lemma_bytes_of(h[i]);
        }
        if p[j] == '*' {
            lemma_by_characters(h, i, p, j + 1);
            if i < h.len() {
                lemma_by_characters(h, i + 1, p, j);
                if matches_from(h, i + 1, p, j) {
                    pattern::lemma_glob_star_earlier(s, b, at(h, i + 1), q, at(p, j));
                }
            }
            if pattern::glob_from(s, b, q, at(p, j)) {
                pattern::lemma_glob_star(s, b, q, at(p, j));
                let k = choose|k: int|
                    b <= k <= s.len() && #[trigger] pattern::glob_from(s, k, q, at(p, j) + 1);
                let m = lemma_char_at(h, i, k);
                if m < h.len() {
                    lemma_start_of_char(h, m, k, p, j + 1);
                }
                lemma_by_characters(h, m, p, j + 1);
                lemma_star_reaches(h, i, m, p, j);
            }
        } else if p[j] == '?' {
            if i < h.len() {
                lemma_char_end(h, i, b);
                lemma_by_characters(h, i + 1, p, j + 1);
            }
        } else {
            let n = bytes_of(p[j]).len() as int;
            lemma_bytes_of(p[j]);
            assert forall|x: int| at(p, j) <= x < at(p, j) + n implies #[trigger] q[x] != STAR
                && q[x] != QUESTION by {
                assert(q[at(p, j) + (x - at(p, j))] == bytes_of(p[j])[x - at(p, j)]);
            }
            lemma_literal(s, b, q, at(p, j), n);
            if i < h.len() {
                lemma_same_char(h, i, p[j]);
                assert((forall|k: int|
                    0 <= k < n ==> ascii::lower(#[trigger] s[b + k]) == q[at(p, j) + k]) == (
                forall|k: int|
                    0 <= k < n ==> ascii::lower(#[trigger] s[b + k]) == bytes_of(p[j])[k])) by {
                    assert forall|k: int| 0 <= k < n implies q[at(p, j) + k] == #[trigger] bytes_of(
                        p[j],
                    )[k] by {}
                }
                lemma_by_characters(h, i + 1, p, j + 1);
            }
        }
    }
}

/// On texts a pattern goes by characters: a star stands for any number of them, a
/// question mark for any one, and another character for itself, ASCII capitals of
/// the name lowered.
pub proof fn law_wildcards_stand_for_characters(h: Seq<char>, p: Seq<char>)
    ensures
        pattern::glob_contains(vstd::utf8::encode_utf8(h), vstd::utf8::encode_utf8(p))
            == matches_somewhere(h, p),
{
    let s = vstd::utf8::encode_utf8(h);
    let q = vstd::utf8::encode_utf8(p);
    lemma_at_ends(h);
    lemma_at_ends(p);
    if pattern::glob_contains(s, q) {
        let b = choose|b: int| 0 <= b <= s.len() && #[trigger] pattern::glob_from(s, b, q, 0);
        let m = lemma_char_at(h, 0, b);
        if m < h.len() {
            lemma_start_of_char(h, m, b, p, 0);
        }
        lemma_by_characters(h, m, p, 0);
    }
    if matches_somewhere(h, p) {
        let i = choose|i: int| 0 <= i <= h.len() && #[trigger] matches_from(h, i, p, 0);
        lemma_by_characters(h, i, p, 0);
        lemma_at_grows(h, i, h.len() as int);
        lemma_at_grows(h, 0, i);
        assert(pattern::glob_from(s, at(h, i), q, 0));
    }
}

} // verus!
