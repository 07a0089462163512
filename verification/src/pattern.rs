//! Query words and how they match a file name.

use vstd::prelude::*;

use crate::ascii;
use crate::ascii::{split_words, to_lower, to_lower_all};

verus! {

/// The wildcard for any run of bytes, the empty one included.
pub const STAR: u8 = 42;

/// The wildcard for exactly one character.
pub const QUESTION: u8 = 63;

/// Whether `needle` stands in `hay` at `at`, the case of `hay` folded.
pub open spec fn occurs_at(hay: Seq<u8>, needle: Seq<u8>, at: int) -> bool {
    &&& 0 <= at
    &&& at + needle.len() <= hay.len()
    &&& forall|j: int| 0 <= j < needle.len() ==> ascii::lower(#[trigger] hay[at + j]) == needle[j]
}

/// Whether `needle` stands somewhere in `hay`, the case of `hay` folded.
pub open spec fn contains_folded(hay: Seq<u8>, needle: Seq<u8>) -> bool {
    exists|at: int| occurs_at(hay, needle, at)
}

/// Whether a byte goes on with a character of UTF-8 that began before it.
pub open spec fn continues(b: u8) -> bool {
    0x80 <= b <= 0xBF
}

/// Where the character of `h` ends that starts at `i`: the bytes that go on
/// with it are part of it.
pub open spec fn char_end(h: Seq<u8>, i: int) -> int
    decreases h.len() - i,
{
    if i + 1 < h.len() && continues(h[i + 1]) {
        char_end(h, i + 1)
    } else {
        i + 1
    }
}

/// Whether pattern byte `p`, no star, takes the name byte `b`.
pub open spec fn takes(p: u8, b: u8) -> bool {
    p == QUESTION || ascii::lower(b) == p
}

/// Where in `h` what the pattern byte `p`, no star, takes at `i` ends: a
/// question mark takes a whole character, another byte takes one byte.
pub open spec fn taken_end(h: Seq<u8>, i: int, p: u8) -> int {
    if p == QUESTION {
        char_end(h, i)
    } else {
        i + 1
    }
}

/// Whether the pattern `p` from position `j` on matches a part of `h` that
/// starts at `i`. What follows that part in `h` is free. A star takes no byte,
/// or one byte and then again what a star takes.
pub open spec fn glob_from(h: Seq<u8>, i: int, p: Seq<u8>, j: int) -> bool
    decreases p.len() - j, h.len() - i,
{
    if j < 0 || j >= p.len() {
        true
    } else if p[j] == STAR {
        glob_from(h, i, p, j + 1) || (i < h.len() && glob_from(h, i + 1, p, j))
    } else {
        i < h.len() && takes(p[j], h[i]) && glob_from(h, taken_end(h, i, p[j]), p, j + 1)
    }
}

/// Whether the pattern `p` matches some part of `h`.
pub open spec fn glob_contains(h: Seq<u8>, p: Seq<u8>) -> bool {
    exists|i: int| 0 <= i <= h.len() && #[trigger] glob_from(h, i, p, 0)
}

/// Whether a wildcard stands in `p`.
pub open spec fn has_wildcard(p: Seq<u8>) -> bool {
    exists|j: int| 0 <= j < p.len() && (#[trigger] p[j] == STAR || p[j] == QUESTION)
}

/// One word of a query: its bytes lowered, and whether it holds a wildcard.
#[derive(Debug, Clone)]
pub struct CompiledTerm {
    pub lower: Vec<u8>,
    pub has_wild: bool,
}

/// What a [`CompiledTerm`] holds.
#[verifier::ext_equal]
pub struct TermView {
    pub lower: Seq<u8>,
    pub has_wild: bool,
}

impl View for CompiledTerm {
    type V = TermView;

    open spec fn view(&self) -> TermView {
        TermView { lower: self.lower@, has_wild: self.has_wild }
    }
}

/// What a sequence of terms holds.
pub open spec fn term_views(terms: Seq<CompiledTerm>) -> Seq<TermView> {
    Seq::new(terms.len(), |i: int| terms[i]@)
}

/// The terms of a query given as bytes.
pub open spec fn query_terms(query: Seq<u8>) -> Seq<TermView> {
    Seq::new(
        ascii::words(query).len(),
        |i: int|
            TermView {
                lower: ascii::lower_all(ascii::words(query)[i]),
                has_wild: has_wildcard(ascii::lower_all(ascii::words(query)[i])),
            },
    )
}

/// Whether one term matches the name `hay`.
pub open spec fn term_hits(hay: Seq<u8>, t: TermView) -> bool {
    if t.has_wild {
        glob_contains(hay, t.lower)
    } else {
        contains_folded(hay, t.lower)
    }
}

/// Whether every term matches the name `hay`.
pub open spec fn all_hit(hay: Seq<u8>, terms: Seq<TermView>) -> bool {
    forall|i: int| 0 <= i < terms.len() ==> term_hits(hay, #[trigger] terms[i])
}

/// Whether `needle` occurs in `hay`, the case of `hay` folded. A needle with a
/// capital letter occurs nowhere.
pub fn contains_ci(hay: &[u8], needle: &[u8]) -> (r: bool)
    ensures
        r == contains_folded(hay@, needle@),
{
    if needle.len() == 0 {
        assert(occurs_at(hay@, needle@, 0));
        return true;
    }
    if hay.len() < needle.len() {
        return false;
    }
    let first: u8 = needle[0];
    let last_start: usize = hay.len() - needle.len();
    let mut i: usize = 0;
    while i <= last_start
        invariant
            0 < needle.len() <= hay.len(),
            first == needle@[0],
            last_start == hay.len() - needle.len(),
            i <= last_start + 1,
            forall|k: int| 0 <= k < i ==> !occurs_at(hay@, needle@, k),
        decreases last_start + 1 - i,
    {
        if to_lower(hay[i]) == first {
            let mut ok: bool = true;
            let mut j: usize = 1;
            while ok && j < needle.len()
                invariant
                    i <= last_start,
                    last_start == hay.len() - needle.len(),
                    1 <= j <= needle.len(),
                    ok ==> forall|m: int|
                        0 <= m < j ==> ascii::lower(#[trigger] hay@[i + m]) == needle@[m],
                    !ok ==> !occurs_at(hay@, needle@, i as int),
                decreases needle.len() - j + (if ok { 1int } else { 0 }),
            {
                if to_lower(hay[i + j]) != needle[j] {
                    ok = false;
                } else {
                    j += 1;
                }
            }
            if ok {
                assert(occurs_at(hay@, needle@, i as int));
                return true;
            }
        } else {
            assert(ascii::lower(hay@[i + 0]) != needle@[0]);
        }
        i += 1;
    }
    assert forall|k: int| !occurs_at(hay@, needle@, k) by {
        if 0 <= k && k + needle.len() <= hay.len() {
            assert(k < i);
        }
    }
    false
}

/// Where a star matches, the rest of the pattern matches at some later place.
pub proof fn lemma_glob_star(h: Seq<u8>, i: int, p: Seq<u8>, j: int)
    requires
        0 <= i <= h.len(),
        0 <= j < p.len(),
        p[j] == STAR,
        glob_from(h, i, p, j),
    ensures
        exists|k: int| i <= k <= h.len() && #[trigger] glob_from(h, k, p, j + 1),
    decreases h.len() - i,
{
    if !glob_from(h, i, p, j + 1) {
        lemma_glob_star(h, i + 1, p, j);
    }
}

/// Where a star matches at some place, it matches at every earlier one.
pub proof fn lemma_glob_star_earlier(h: Seq<u8>, i: int, k: int, p: Seq<u8>, j: int)
    requires
        0 <= i <= k <= h.len(),
        0 <= j < p.len(),
        p[j] == STAR,
        glob_from(h, k, p, j),
    ensures
        glob_from(h, i, p, j),
    decreases k - i,
{
    if i < k {
        lemma_glob_star_earlier(h, i + 1, k, p, j);
    }
}

proof fn lemma_char_end(h: Seq<u8>, i: int)
    requires
        0 <= i < h.len(),
    ensures
        i < char_end(h, i) <= h.len(),
    decreases h.len() - i,
{
    if i + 1 < h.len() && continues(h[i + 1]) {
        lemma_char_end(h, i + 1);
    }
}

/// What starts later ends no earlier.
proof fn lemma_char_end_grows(h: Seq<u8>, i: int, k: int)
    requires
        0 <= i <= k < h.len(),
    ensures
        char_end(h, i) <= char_end(h, k),
    decreases k - i,
{
    lemma_char_end(h, k);
    if i < k && continues(h[i + 1]) {
        lemma_char_end_grows(h, i + 1, k);
    }
}

proof fn lemma_char_end_shift(h: Seq<u8>, s: int, i: int)
    requires
        0 <= s <= h.len(),
        0 <= i < h.len() - s,
    ensures
        char_end(h.skip(s), i) + s == char_end(h, i + s),
    decreases h.len() - s - i,
{
    if i + 1 < h.len() - s {
        assert(h.skip(s)[i + 1] == h[i + s + 1]);
        if continues(h[i + s + 1]) {
            lemma_char_end_shift(h, s, i + 1);
        }
    }
}

proof fn lemma_glob_shift(h: Seq<u8>, s: int, i: int, p: Seq<u8>, j: int)
    requires
        0 <= s <= h.len(),
        0 <= i <= h.len() - s,
        0 <= j <= p.len(),
    ensures
        glob_from(h.skip(s), i, p, j) == glob_from(h, i + s, p, j),
    decreases p.len() - j, h.len() - s - i,
{
    if j < p.len() {
        if p[j] == STAR {
            lemma_glob_shift(h, s, i, p, j + 1);
            if i < h.len() - s {
                lemma_glob_shift(h, s, i + 1, p, j);
            }
        } else if i < h.len() - s {
            lemma_char_end(h.skip(s), i);
            lemma_char_end_shift(h, s, i);
            lemma_glob_shift(h, s, taken_end(h.skip(s), i, p[j]), p, j + 1);
        }
    }
}

/// Where in `h` what the pattern bytes from `a` to `b`, no star among them, take
/// from `i` on ends.
spec fn run_end(h: Seq<u8>, i: int, p: Seq<u8>, a: int, b: int) -> int
    decreases b - a,
{
    if b <= a {
        i
    } else {
        taken_end(h, run_end(h, i, p, a, b - 1), p[b - 1])
    }
}

/// A run of pattern bytes without a star that matches at `k` leaves the rest of
/// the pattern to match behind it, no earlier than a run from `i` on would end.
proof fn lemma_glob_run(h: Seq<u8>, i: int, k: int, p: Seq<u8>, a: int, b: int)
    requires
        0 <= i <= k <= h.len(),
        0 <= a <= b <= p.len(),
        forall|x: int| a <= x < b ==> p[x] != STAR,
        glob_from(h, k, p, a),
    ensures
        glob_from(h, run_end(h, k, p, a, b), p, b),
        i <= run_end(h, i, p, a, b) <= run_end(h, k, p, a, b) <= h.len(),
    decreases b - a,
{
    if a < b {
        lemma_glob_run(h, i, k, p, a, b - 1);
        let e = run_end(h, i, p, a, b - 1);
        let f = run_end(h, k, p, a, b - 1);
        assert(p[b - 1] != STAR);
        lemma_char_end(h, e);
        lemma_char_end(h, f);
        lemma_char_end_grows(h, e, f);
    }
}

/// Where the character that starts at `i` ends.
fn char_stop(h: &[u8], i: usize) -> (r: usize)
    requires
        i < h.len(),
    ensures
        r == char_end(h@, i as int),
        i < r <= h.len(),
{
    let mut k: usize = i + 1;
    while k < h.len() && 0x80 <= h[k] && h[k] <= 0xBF
        invariant
            i < k <= h.len(),
            char_end(h@, i as int) == char_end(h@, k - 1),
        decreases h.len() - k,
    {
        k += 1;
    }
    k
}

/// Whether the pattern `pat` matches a part of `h` that starts at its first
/// byte. The scan is greedy and falls back to the last star.
pub fn glob_at(h: &[u8], pat: &[u8]) -> (r: bool)
    ensures
        r == glob_from(h@, 0, pat@, 0),
{
    let mut hi: usize = 0;
    let mut pi: usize = 0;
    let mut star_pi: Option<usize> = None;
    let mut star_hi: usize = 0;
    loop
        invariant
            hi <= h.len(),
            pi <= pat.len(),
            star_hi <= h.len(),
            match star_pi {
                None => glob_from(h@, 0, pat@, 0) == glob_from(h@, hi as int, pat@, pi as int),
                Some(sp) => {
                    &&& sp < pi
                    &&& hi == run_end(h@, star_hi as int, pat@, sp + 1, pi as int)
                    &&& forall|x: int| sp < x < pi ==> pat@[x] != STAR
                    &&& glob_from(h@, star_hi as int, pat@, sp + 1) == glob_from(
                        h@,
                        hi as int,
                        pat@,
                        pi as int,
                    )
                    &&& pat@[sp as int] == STAR
                    &&& glob_from(h@, 0, pat@, 0) == glob_from(
                        h@,
                        star_hi as int,
                        pat@,
                        sp as int,
                    )
                },
            },
        decreases
                pat.len() - (match star_pi {
                    None => -1int,
                    Some(sp) => sp as int,
                }),
                h.len() - star_hi,
                pat.len() - pi,
    {
        if pi < pat.len() {
            let c: u8 = pat[pi];
            if c == STAR {
                proof {
                    if let Some(sp) = star_pi {
                        if glob_from(h@, star_hi as int, pat@, sp as int) {
                            // A later start of the run ends no earlier than this one.
                            lemma_glob_star(h@, star_hi as int, pat@, sp as int);
                            let k = choose|k: int|
                                star_hi <= k <= h.len() && #[trigger] glob_from(
                                    h@,
                                    k,
                                    pat@,
                                    sp + 1,
                                );
                            lemma_glob_run(
                                h@,
                                star_hi as int,
                                k,
                                pat@,
                                sp + 1,
                                pi as int,
                            );
                            lemma_glob_star_earlier(
                                h@,
                                hi as int,
                                run_end(h@, k, pat@, sp + 1, pi as int),
                                pat@,
                                pi as int,
                            );
                        }
                    }
                }
                star_pi = Some(pi);
                star_hi = hi;
                pi += 1;
                continue ;
            }
            if c == QUESTION {
                if hi < h.len() {
                    hi = char_stop(h, hi);
                    pi += 1;
                    continue ;
                }
            } else if hi < h.len() && to_lower(h[hi]) == c {
                hi += 1;
                pi += 1;
                continue ;
            }
        } else {
            assert(glob_from(h@, hi as int, pat@, pi as int));
            return true;
        }
        assert(!glob_from(h@, hi as int, pat@, pi as int));
        match star_pi {
            Some(sp) => {
                if star_hi == h.len() {
                    return false;
                }
                star_hi += 1;
                hi = star_hi;
                pi = sp + 1;
            },
            None => {
                return false;
            },
        }
    }
}

/// Whether the pattern `pat` matches some part of `hay`.
pub fn wildcard_contains_ci(hay: &[u8], pat: &[u8]) -> (r: bool)
    ensures
        r == glob_contains(hay@, pat@),
{
    let mut start: usize = 0;
    loop
        invariant
            start <= hay.len(),
            forall|k: int| 0 <= k < start ==> !glob_from(hay@, k, pat@, 0),
        decreases hay.len() - start,
    {
        let rest: &[u8] = vstd::slice::slice_subrange(hay, start, hay.len());
        proof {
            assert(rest@ =~= hay@.skip(start as int));
            lemma_glob_shift(hay@, start as int, 0, pat@, 0);
        }
        if glob_at(rest, pat) {
            assert(glob_from(hay@, start as int, pat@, 0));
            return true;
        }
        if start == hay.len() {
            return false;
        }
        start += 1;
    }
}

/// Whether a wildcard stands in `p`.
fn holds_wildcard(p: &[u8]) -> (r: bool)
    ensures
        r == has_wildcard(p@),
{
    let mut i: usize = 0;
    while i < p.len()
        invariant
            i <= p.len(),
            forall|j: int| 0 <= j < i ==> p@[j] != STAR && p@[j] != QUESTION,
        decreases p.len() - i,
    {
        if p[i] == STAR || p[i] == QUESTION {
            assert(p@[i as int] == STAR || p@[i as int] == QUESTION);
            return true;
        }
        i += 1;
    }
    false
}

/// Turns a query into its terms. A query of blanks has none.
pub fn compile_query(query: &str) -> (r: Vec<CompiledTerm>)
    ensures
        term_views(r@) == query_terms(vstd::utf8::encode_utf8(query@)),
{
    let ws: Vec<Vec<u8>> = split_words(query.as_bytes());
    let mut out: Vec<CompiledTerm> = Vec::new();
    let mut i: usize = 0;
    while i < ws.len()
        invariant
            i <= ws.len(),
            ascii::views(ws@) == ascii::words(vstd::utf8::encode_utf8(query@)),
            out.len() == i,
            forall|j: int|
                0 <= j < i ==> (#[trigger] out@[j])@ == query_terms(vstd::utf8::encode_utf8(query@))[j],
        decreases ws.len() - i,
    {
        let low: Vec<u8> = to_lower_all(ws[i].as_slice());
        let wild: bool = holds_wildcard(low.as_slice());
        assert(ascii::views(ws@)[i as int] == ws@[i as int]@);
        out.push(CompiledTerm { lower: low, has_wild: wild });
        i += 1;
    }
    assert(ascii::views(ws@).len() == ws.len());
    assert(term_views(out@) =~= query_terms(vstd::utf8::encode_utf8(query@)));
    out
}

/// Whether the term matches the name `hay`: a word as a substring, a word with
/// wildcards as a pattern that may start anywhere.
pub fn term_matches(hay: &[u8], t: &CompiledTerm) -> (r: bool)
    ensures
        r == term_hits(hay@, t@),
{
    if t.has_wild {
        wildcard_contains_ci(hay, t.lower.as_slice())
    } else {
        contains_ci(hay, t.lower.as_slice())
    }
}

/// Whether every term matches the name `hay`.
pub fn all_terms_match(hay: &[u8], terms: &[CompiledTerm]) -> (r: bool)
    ensures
        r == all_hit(hay@, term_views(terms@)),
{
    let mut i: usize = 0;
    while i < terms.len()
        invariant
            i <= terms.len(),
            forall|j: int| 0 <= j < i ==> term_hits(hay@, #[trigger] term_views(terms@)[j]),
        decreases terms.len() - i,
    {
        if !term_matches(hay, &terms[i]) {
            assert(!term_hits(hay@, term_views(terms@)[i as int]));
            return false;
        }
        i += 1;
    }
    true
}

proof fn lemma_plain_from(h: Seq<u8>, i: int, p: Seq<u8>, j: int)
    requires
        0 <= i,
        0 <= j <= p.len(),
        !has_wildcard(p),
    ensures
        glob_from(h, i, p, j) == (j == p.len() || (i + (p.len() - j) <= h.len() && forall|x: int|
            j <= x < p.len() ==> ascii::lower(#[trigger] h[i + (x - j)]) == p[x])),
    decreases p.len() - j,
{
    if j < p.len() {
        assert(p[j] != STAR && p[j] != QUESTION);
        if i < h.len() {
            lemma_plain_from(h, i + 1, p, j + 1);
            if glob_from(h, i, p, j) {
                assert forall|x: int| j <= x < p.len() implies ascii::lower(
                    #[trigger] h[i + (x - j)],
                ) == p[x] by {
                    if x > j {
                        assert(ascii::lower(h[(i + 1) + (x - (j + 1))]) == p[x]);
                    }
                }
            } else if i + (p.len() - j) <= h.len() && forall|x: int|
                j <= x < p.len() ==> ascii::lower(#[trigger] h[i + (x - j)]) == p[x] {
                assert(ascii::lower(h[i + (j - j)]) == p[j]);
                assert forall|x: int| j + 1 <= x < p.len() implies ascii::lower(
                    #[trigger] h[(i + 1) + (x - (j + 1))],
                ) == p[x] by {
                    assert(ascii::lower(h[i + (x - j)]) == p[x]);
                }
            }
        }
    }
}

/// A pattern without a wildcard matches exactly where it occurs as a substring.
pub proof fn law_plain_pattern_is_substring(h: Seq<u8>, p: Seq<u8>)
    requires
        !has_wildcard(p),
    ensures
        glob_contains(h, p) == contains_folded(h, p),
{
    assert forall|i: int| 0 <= i <= h.len() implies #[trigger] glob_from(h, i, p, 0) == occurs_at(
        h,
        p,
        i,
    ) by {
        lemma_plain_from(h, i, p, 0);
        if occurs_at(h, p, i) {
            assert forall|x: int| 0 <= x < p.len() implies ascii::lower(#[trigger] h[i + (x - 0)])
                == p[x] by {
                assert(ascii::lower(h[i + x]) == p[x]);
            }
        }
        if glob_from(h, i, p, 0) && p.len() > 0 {
            assert forall|x: int| 0 <= x < p.len() implies ascii::lower(#[trigger] h[i + x])
                == p[x] by {
                assert(ascii::lower(h[i + (x - 0)]) == p[x]);
            }
        }
    }
    if contains_folded(h, p) {
        let i = choose|i: int| occurs_at(h, p, i);
        assert(glob_from(h, i, p, 0));
    }
}

proof fn lemma_char_end_folds(a: Seq<u8>, b: Seq<u8>, i: int)
    requires
        ascii::lower_all(a) == ascii::lower_all(b),
        0 <= i,
    ensures
        char_end(a, i) == char_end(b, i),
    decreases a.len() - i,
{
    ascii::lemma_fold_eq(a, b);
    if i + 1 < a.len() {
        assert(ascii::lower(a[i + 1]) == ascii::lower(b[i + 1]));
        if continues(a[i + 1]) {
            lemma_char_end_folds(a, b, i + 1);
        }
    }
}

proof fn lemma_glob_folds(a: Seq<u8>, b: Seq<u8>, i: int, p: Seq<u8>, j: int)
    requires
        ascii::lower_all(a) == ascii::lower_all(b),
        0 <= i,
    ensures
        glob_from(a, i, p, j) == glob_from(b, i, p, j),
    decreases p.len() - j, a.len() - i,
{
    ascii::lemma_fold_eq(a, b);
    if 0 <= j < p.len() {
        if p[j] == STAR {
            lemma_glob_folds(a, b, i, p, j + 1);
            if i < a.len() {
                lemma_glob_folds(a, b, i + 1, p, j);
            }
        } else if i < a.len() {
            lemma_char_end(a, i);
            lemma_char_end_folds(a, b, i);
            lemma_glob_folds(a, b, taken_end(a, i, p[j]), p, j + 1);
        }
    }
}

/// Names that differ only in ASCII case are matched by the same terms.
pub proof fn law_match_ignores_case_of_name(a: Seq<u8>, b: Seq<u8>, terms: Seq<TermView>)
    requires
        ascii::lower_all(a) == ascii::lower_all(b),
    ensures
        forall|t: TermView| #[trigger] term_hits(a, t) == term_hits(b, t),
        all_hit(a, terms) == all_hit(b, terms),
{
    ascii::lemma_fold_eq(a, b);
    assert forall|n: Seq<u8>, i: int| #[trigger] occurs_at(a, n, i) == occurs_at(b, n, i) by {
        if occurs_at(a, n, i) {
            assert forall|j: int| 0 <= j < n.len() implies ascii::lower(#[trigger] b[i + j])
                == n[j] by {
                assert(ascii::lower(a[i + j]) == n[j]);
            }
        }
        if occurs_at(b, n, i) {
            assert forall|j: int| 0 <= j < n.len() implies ascii::lower(#[trigger] a[i + j])
                == n[j] by {
                assert(ascii::lower(b[i + j]) == n[j]);
            }
        }
    }
    assert forall|t: TermView| #[trigger] term_hits(a, t) == term_hits(b, t) by {
        assert forall|i: int| 0 <= i implies #[trigger] glob_from(a, i, t.lower, 0) == glob_from(
            b,
            i,
            t.lower,
            0,
        ) by {
            lemma_glob_folds(a, b, i, t.lower, 0);
        }
        if contains_folded(a, t.lower) {
            let i = choose|i: int| occurs_at(a, t.lower, i);
            assert(occurs_at(b, t.lower, i));
        }
        if contains_folded(b, t.lower) {
            let i = choose|i: int| occurs_at(b, t.lower, i);
            assert(occurs_at(a, t.lower, i));
        }
        if glob_contains(b, t.lower) {
            let i = choose|i: int| 0 <= i <= b.len() && #[trigger] glob_from(b, i, t.lower, 0);
            assert(glob_from(a, i, t.lower, 0));
        }
    }
}

/// Queries that differ only in ASCII case have the same terms.
pub proof fn law_query_ignores_case(a: Seq<u8>, b: Seq<u8>)
    requires
        ascii::lower_all(a) == ascii::lower_all(b),
    ensures
        query_terms(a) == query_terms(b),
{
    ascii::law_words_fold(a);
    ascii::law_words_fold(b);
    let w = ascii::words(ascii::lower_all(a));
    assert(w.len() == ascii::words(a).len());
    assert(w.len() == ascii::words(b).len());
    assert forall|i: int| 0 <= i < w.len() implies ascii::lower_all(ascii::words(a)[i])
        == ascii::lower_all(ascii::words(b)[i]) by {
        assert(w[i] == ascii::lower_all(ascii::words(a)[i]));
        assert(w[i] == ascii::lower_all(ascii::words(b)[i]));
    }
    assert(query_terms(a) =~= query_terms(b));
}

/// A star before or after a pattern changes nothing: a match may start and end
/// anywhere.
pub proof fn law_outer_star_is_free(h: Seq<u8>, p: Seq<u8>)
    ensures
        glob_contains(h, seq![STAR] + p) == glob_contains(h, p),
        glob_contains(h, p.push(STAR)) == glob_contains(h, p),
{
    let q = seq![STAR] + p;
    assert forall|i: int| 0 <= i <= h.len() implies #[trigger] glob_from(h, i, q, 1) == glob_from(
        h,
        i,
        p,
        0,
    ) by {
        lemma_glob_prefix_byte(h, i, STAR, p, 0);
    }
    if glob_contains(h, q) {
        let i = choose|i: int| 0 <= i <= h.len() && #[trigger] glob_from(h, i, q, 0);
        lemma_glob_star(h, i, q, 0);
        let k = choose|k: int| i <= k <= h.len() && #[trigger] glob_from(h, k, q, 1);
        assert(glob_from(h, k, p, 0));
    }
    if glob_contains(h, p) {
        let i = choose|i: int| 0 <= i <= h.len() && #[trigger] glob_from(h, i, p, 0);
        assert(glob_from(h, i, q, 1));
        assert(glob_from(h, i, q, 0));
    }
    assert forall|i: int| 0 <= i implies #[trigger] glob_from(h, i, p.push(STAR), 0) == glob_from(
        h,
        i,
        p,
        0,
    ) by {
        lemma_glob_last_star(h, i, p, 0);
    }
    if glob_contains(h, p) {
        let i = choose|i: int| 0 <= i <= h.len() && #[trigger] glob_from(h, i, p, 0);
        assert(glob_from(h, i, p.push(STAR), 0));
    }
}

proof fn lemma_glob_prefix_byte(h: Seq<u8>, i: int, b: u8, p: Seq<u8>, j: int)
    requires
        0 <= i <= h.len(),
        0 <= j <= p.len(),
    ensures
        glob_from(h, i, seq![b] + p, j + 1) == glob_from(h, i, p, j),
    decreases p.len() - j, h.len() - i,
{
    if j < p.len() {
        assert((seq![b] + p)[j + 1] == p[j]);
        if p[j] == STAR {
            lemma_glob_prefix_byte(h, i, b, p, j + 1);
        }
        if i < h.len() {
            if p[j] == STAR {
                lemma_glob_prefix_byte(h, i + 1, b, p, j);
            } else {
                lemma_char_end(h, i);
                lemma_glob_prefix_byte(h, taken_end(h, i, p[j]), b, p, j + 1);
            }
        }
    }
}

proof fn lemma_glob_last_star(h: Seq<u8>, i: int, p: Seq<u8>, j: int)
    requires
        0 <= i,
        0 <= j <= p.len(),
    ensures
        glob_from(h, i, p.push(STAR), j) == glob_from(h, i, p, j),
    decreases p.len() - j, h.len() - i,
{
    let q = p.push(STAR);
    if j < p.len() {
        assert(q[j] == p[j]);
        if p[j] == STAR {
            lemma_glob_last_star(h, i, p, j + 1);
            if i < h.len() {
                lemma_glob_last_star(h, i + 1, p, j);
            }
        } else if i < h.len() {
            lemma_char_end(h, i);
            lemma_glob_last_star(h, taken_end(h, i, p[j]), p, j + 1);
        }
    } else {
        assert(q[j] == STAR);
        assert(glob_from(h, i, q, j + 1));
    }
}

/// Every term counts, whatever its place and length: a name is matched by a list
/// of terms exactly where it is matched by each part of the list, and by one term
/// alone exactly where that term matches it.
pub proof fn law_every_term_counts(
    hay: Seq<u8>,
    a: Seq<TermView>,
    b: Seq<TermView>,
    t: TermView,
    i: int,
)
    ensures
        all_hit(hay, a + b) == (all_hit(hay, a) && all_hit(hay, b)),
        all_hit(hay, seq![t]) == term_hits(hay, t),
        all_hit(hay, Seq::empty()),
        all_hit(hay, a) && 0 <= i < a.len() ==> term_hits(hay, a[i]),
{
    if all_hit(hay, a + b) {
        assert forall|k: int| 0 <= k < a.len() implies term_hits(hay, #[trigger] a[k]) by {
            assert((a + b)[k] == a[k]);
        }
        assert forall|k: int| 0 <= k < b.len() implies term_hits(hay, #[trigger] b[k]) by {
            assert((a + b)[a.len() + k] == b[k]);
        }
    }
    if all_hit(hay, seq![t]) {
        assert(term_hits(hay, seq![t][0]));
    }
}

/// A query of two parts with a blank between them is matched exactly where both
/// parts are: every word has to be matched, whatever its place and length.
pub proof fn law_both_parts_of_a_query_count(
    hay: Seq<u8>,
    a: Seq<u8>,
    blank: u8,
    b: Seq<u8>,
)
    requires
        blank == 32 || blank == 9 || blank == 10 || blank == 12 || blank == 13,
    ensures
        query_terms(a + seq![blank] + b) == query_terms(a) + query_terms(b),
        all_hit(hay, query_terms(a + seq![blank] + b)) == (all_hit(hay, query_terms(a))
            && all_hit(hay, query_terms(b))),
{
    ascii::law_blanks_part_words(a, blank, b);
    assert(query_terms(a + seq![blank] + b) =~= query_terms(a) + query_terms(b));
    law_every_term_counts(
        hay,
        query_terms(a),
        query_terms(b),
        TermView { lower: Seq::empty(), has_wild: false },
        0,
    );
}

/// Whether the bytes are one word: some, and no blank among them.
pub open spec fn one_word(w: Seq<u8>) -> bool {
    w.len() > 0 && forall|i: int|
        0 <= i < w.len() ==> #[trigger] w[i] != 32 && w[i] != 9 && w[i] != 10 && w[i] != 12 && w[i]
            != 13
}

/// Whether neither a star nor a question mark is among the bytes.
pub open spec fn plain(w: Seq<u8>) -> bool {
    forall|i: int| 0 <= i < w.len() ==> #[trigger] w[i] != 42 && w[i] != 63
}

/// A query of one word has one term.
pub proof fn lemma_one_word_query(w: Seq<u8>)
    requires
        one_word(w),
    ensures
        query_terms(w) == seq![TermView { lower: ascii::lower_all(w), has_wild: !plain(w) }],
{
    ascii::law_blanks_part_words(w, 32, Seq::empty());
    let low = ascii::lower_all(w);
    if has_wildcard(low) {
        let j = choose|j: int| 0 <= j < low.len() && (#[trigger] low[j] == STAR || low[j] == QUESTION);
        assert(low[j] == ascii::lower(w[j]));
        assert(w[j] == 42 || w[j] == 63);
    } else {
        assert forall|j: int| 0 <= j < w.len() implies #[trigger] w[j] != 42 && w[j] != 63 by {
            assert(low[j] == ascii::lower(w[j]));
            assert(low[j] != STAR && low[j] != QUESTION);
        }
    }
    assert(query_terms(w) =~= seq![TermView { lower: low, has_wild: !plain(w) }]);
}

/// A word without wildcards matches exactly the names in which it stands
/// somewhere, the case of ASCII letters aside.
pub proof fn law_plain_word_matches_where_it_stands(hay: Seq<u8>, w: Seq<u8>)
    requires
        one_word(w),
        plain(w),
    ensures
        all_hit(hay, query_terms(w)) <==> exists|at: int|
            0 <= at && at + w.len() <= hay.len() && ascii::lower_all(
                #[trigger] hay.subrange(at, at + w.len()),
            ) == ascii::lower_all(w),
{
    let low = ascii::lower_all(w);
    let t = TermView { lower: low, has_wild: false };
    lemma_one_word_query(w);
    law_every_term_counts(hay, Seq::empty(), Seq::empty(), t, 0);
    if term_hits(hay, t) {
        let at = choose|at: int| occurs_at(hay, low, at);
        let part = hay.subrange(at, at + w.len());
        assert forall|j: int| 0 <= j < w.len() implies ascii::lower(part[j]) == low[j] by {
            assert(ascii::lower(hay[at + j]) == low[j]);
        }
        assert(ascii::lower_all(part) =~= low);
    }
    if exists|at: int|
        0 <= at && at + w.len() <= hay.len() && ascii::lower_all(
            #[trigger] hay.subrange(at, at + w.len()),
        ) == low {
        let at = choose|at: int|
            0 <= at && at + w.len() <= hay.len() && ascii::lower_all(
                #[trigger] hay.subrange(at, at + w.len()),
            ) == low;
        let part = hay.subrange(at, at + w.len());
        assert forall|j: int| 0 <= j < low.len() implies ascii::lower(#[trigger] hay[at + j])
            == low[j] by {
            assert(ascii::lower_all(part)[j] == ascii::lower(part[j]));
        }
        assert(occurs_at(hay, low, at));
    }
}

/// A word with wildcards matches exactly the names in which the pattern, its
/// ASCII letters lowered, matches from some place on.
pub proof fn law_pattern_word_matches_from_somewhere(hay: Seq<u8>, w: Seq<u8>)
    requires
        one_word(w),
        !plain(w),
    ensures
        all_hit(hay, query_terms(w)) <==> exists|i: int|
            0 <= i <= hay.len() && #[trigger] glob_from(hay, i, ascii::lower_all(w), 0),
{
    let t = TermView { lower: ascii::lower_all(w), has_wild: true };
    lemma_one_word_query(w);
    law_every_term_counts(hay, Seq::empty(), Seq::empty(), t, 0);
}

/// Whether the plain bytes `p` stand in `h` from `i` on, the case of `h` folded.
pub open spec fn stands_at(h: Seq<u8>, i: int, p: Seq<u8>) -> bool {
    i + p.len() <= h.len() && ascii::lower_all(h.subrange(i, i + p.len())) == p
}

proof fn lemma_glob_prefix(h: Seq<u8>, i: int, pre: Seq<u8>, p: Seq<u8>, j: int)
    requires
        0 <= i <= h.len(),
        0 <= j <= p.len(),
    ensures
        glob_from(h, i, pre + p, pre.len() + j) == glob_from(h, i, p, j),
    decreases p.len() - j, h.len() - i,
{
    if j < p.len() {
        assert((pre + p)[pre.len() + j] == p[j]);
        if p[j] == STAR {
            lemma_glob_prefix(h, i, pre, p, j + 1);
            if i < h.len() {
                lemma_glob_prefix(h, i + 1, pre, p, j);
            }
        } else if i < h.len() {
            lemma_char_end(h, i);
            lemma_glob_prefix(h, taken_end(h, i, p[j]), pre, p, j + 1);
        }
    }
}

proof fn lemma_glob_plain_start(h: Seq<u8>, i: int, p: Seq<u8>, q: Seq<u8>)
    requires
        0 <= i <= h.len(),
        plain(p),
    ensures
        glob_from(h, i, p + q, 0) <==> stands_at(h, i, p) && glob_from(h, i + p.len(), q, 0),
    decreases p.len(),
{
    let all = p + q;
    if p.len() == 0 {
        assert(all =~= q);
        assert(ascii::lower_all(h.subrange(i, i)) =~= p);
    } else {
        let rest = p.skip(1);
        assert(p[0] != 42 && p[0] != 63);
        assert(all[0] == p[0]);
        assert(all =~= seq![p[0]] + (rest + q));
        if i < h.len() {
            lemma_glob_prefix(h, i + 1, seq![p[0]], rest + q, 0);
            assert forall|x: int| 0 <= x < rest.len() implies #[trigger] rest[x] != 42 && rest[x]
                != 63 by {
                assert(p[x + 1] != 42);
            }
            lemma_glob_plain_start(h, i + 1, rest, q);
            let n = p.len() as int;
            if stands_at(h, i, p) {
                let part = ascii::lower_all(h.subrange(i, i + n));
                assert(part[0] == p[0]);
                assert(ascii::lower_all(h.subrange(i + 1, i + n)) =~= part.skip(1));
                assert(part.skip(1) =~= rest);
            }
            if stands_at(h, i + 1, rest) && ascii::lower(h[i]) == p[0] {
                let part = ascii::lower_all(h.subrange(i + 1, i + n));
                assert(ascii::lower_all(h.subrange(i, i + n)) =~= seq![p[0]] + part);
                assert(seq![p[0]] + rest =~= p);
            }
        }
    }
}

/// Plain bytes of a pattern match exactly themselves, the case of the name
/// folded, and the rest of the pattern matches behind them.
pub proof fn law_plain_bytes_match_themselves(h: Seq<u8>, i: int, p: Seq<u8>, q: Seq<u8>)
    requires
        0 <= i <= h.len(),
        plain(p),
    ensures
        glob_from(h, i, p, 0) <==> i + p.len() <= h.len() && ascii::lower_all(
            h.subrange(i, i + p.len()),
        ) == p,
        glob_from(h, i, p + q, 0) <==> i + p.len() <= h.len() && ascii::lower_all(
            h.subrange(i, i + p.len()),
        ) == p && glob_from(h, i + p.len(), q, 0),
{
    lemma_glob_plain_start(h, i, p, q);
    lemma_glob_plain_start(h, i, p, Seq::empty());
    assert(p + Seq::<u8>::empty() =~= p);
}

/// A star stands for any run of bytes, none too: the rest of the pattern matches
/// at the same place or at any later one.
pub proof fn law_star_stands_for_any_run(h: Seq<u8>, i: int, q: Seq<u8>)
    requires
        0 <= i <= h.len(),
    ensures
        glob_from(h, i, seq![42u8] + q, 0) <==> exists|k: int|
            i <= k <= h.len() && #[trigger] glob_from(h, k, q, 0),
{
    let p = seq![42u8] + q;
    assert forall|k: int| 0 <= k <= h.len() implies #[trigger] glob_from(h, k, p, 1) == glob_from(
        h,
        k,
        q,
        0,
    ) by {
        lemma_glob_prefix(h, k, seq![42u8], q, 0);
    }
    if glob_from(h, i, p, 0) {
        lemma_glob_star(h, i, p, 0);
        let k = choose|k: int| i <= k <= h.len() && #[trigger] glob_from(h, k, p, 1);
        assert(glob_from(h, k, q, 0));
    }
    if exists|k: int| i <= k <= h.len() && #[trigger] glob_from(h, k, q, 0) {
        let k = choose|k: int| i <= k <= h.len() && #[trigger] glob_from(h, k, q, 0);
        assert(glob_from(h, k, p, 1));
        assert(glob_from(h, k, p, 0));
        lemma_glob_star_earlier(h, i, k, p, 0);
    }
}

/// A question mark stands for one byte and the bytes of UTF-8 that go on with it:
/// the rest of the pattern matches right behind them.
pub proof fn law_question_mark_stands_for_one(h: Seq<u8>, i: int, e: int, q: Seq<u8>)
    requires
        0 <= i <= h.len(),
    ensures
        i == h.len() ==> !glob_from(h, i, seq![63u8] + q, 0),
        i < e <= h.len() && (forall|x: int| i < x < e ==> 0x80 <= #[trigger] h[x] <= 0xBF) && (e
            == h.len() || !(0x80 <= h[e] <= 0xBF)) ==> (glob_from(h, i, seq![63u8] + q, 0)
            <==> glob_from(h, e, q, 0)),
{
    let p = seq![63u8] + q;
    if i < e <= h.len() && (forall|x: int| i < x < e ==> 0x80 <= #[trigger] h[x] <= 0xBF) && (e
        == h.len() || !(0x80 <= h[e] <= 0xBF)) {
        lemma_char_end_here(h, i, e);
        lemma_glob_prefix(h, e, seq![63u8], q, 0);
    }
}

proof fn lemma_char_end_here(h: Seq<u8>, i: int, e: int)
    requires
        0 <= i < e <= h.len(),
        forall|x: int| i < x < e ==> 0x80 <= #[trigger] h[x] <= 0xBF,
        e == h.len() || !(0x80 <= h[e] <= 0xBF),
    ensures
        char_end(h, i) == e,
    decreases e - i,
{
    if i + 1 < e {
        assert(0x80 <= h[i + 1] <= 0xBF);
        lemma_char_end_here(h, i + 1, e);
    }
}

} // verus!
