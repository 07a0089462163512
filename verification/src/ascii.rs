//! Byte strings with ASCII case folding.

use vstd::prelude::*;

verus! {

/// The byte `b` with an ASCII capital letter turned into its small letter.
pub open spec fn lower(b: u8) -> u8 {
    if 65 <= b <= 90 {
        (b + 32) as u8
    } else {
        b
    }
}

/// Every byte of `s` lowered.
pub open spec fn lower_all(s: Seq<u8>) -> Seq<u8> {
    Seq::new(s.len(), |i: int| lower(s[i]))
}

/// Strings equal up to case have equal lengths and, place by place, bytes equal
/// up to case.
pub proof fn lemma_fold_eq(a: Seq<u8>, b: Seq<u8>)
    requires
        lower_all(a) == lower_all(b),
    ensures
        a.len() == b.len(),
        forall|i: int| #![trigger a[i]] #![trigger b[i]] 0 <= i < a.len() ==> lower(a[i]) == lower(b[i]),
{
    assert(lower_all(a).len() == a.len());
    assert(lower_all(b).len() == b.len());
    assert forall|i: int| #![trigger a[i]] #![trigger b[i]] 0 <= i < a.len() implies lower(a[i]) == lower(b[i]) by {
        assert(lower_all(a)[i] == lower(a[i]));
        assert(lower_all(b)[i] == lower(b[i]));
    }
}

/// The contents of a sequence of byte vectors.
pub open spec fn views(v: Seq<Vec<u8>>) -> Seq<Seq<u8>> {
    Seq::new(v.len(), |i: int| v[i]@)
}

/// The blanks that separate query words: space, tab, line feed, form feed,
/// carriage return.
pub open spec fn is_blank(b: u8) -> bool {
    b == 32 || b == 9 || b == 10 || b == 12 || b == 13
}

/// The maximal runs of bytes of `s` that are not blanks, in order.
pub open spec fn words(s: Seq<u8>) -> Seq<Seq<u8>>
    decreases s.len(),
{
    if s.len() == 0 {
        Seq::empty()
    } else {
        let before = words(s.drop_last());
        if is_blank(s.last()) {
            before
        } else if s.len() == 1 || is_blank(s[s.len() - 2]) {
            before.push(seq![s.last()])
        } else {
            before.drop_last().push(before.last().push(s.last()))
        }
    }
}

/// The pieces of `s` between the occurrences of `sep`, in order; one more
/// piece than there are occurrences.
pub open spec fn split(s: Seq<u8>, sep: u8) -> Seq<Seq<u8>>
    decreases s.len(),
{
    if s.len() == 0 {
        seq![Seq::empty()]
    } else {
        let before = split(s.drop_last(), sep);
        if s.last() == sep {
            before.push(Seq::empty())
        } else {
            before.drop_last().push(before.last().push(s.last()))
        }
    }
}

/// `s` without the occurrences of `b` at its end.
pub open spec fn trim_end(s: Seq<u8>, b: u8) -> Seq<u8>
    decreases s.len(),
{
    if s.len() > 0 && s.last() == b {
        trim_end(s.drop_last(), b)
    } else {
        s
    }
}

/// Lowers one byte.
pub fn to_lower(b: u8) -> (r: u8)
    ensures
        r == lower(b),
{
    if 65 <= b && b <= 90 {
        b + 32
    } else {
        b
    }
}

/// Lowers every byte.
pub fn to_lower_all(s: &[u8]) -> (r: Vec<u8>)
    ensures
        r@ == lower_all(s@),
{
    let mut r: Vec<u8> = Vec::new();
    let mut i: usize = 0;
    while i < s.len()
        invariant
            i <= s.len(),
            r@ == lower_all(s@.take(i as int)),
        decreases s.len() - i,
    {
        r.push(to_lower(s[i]));
        assert(s@.take(i + 1) =~= s@.take(i as int).push(s@[i as int]));
        i += 1;
    }
    assert(s@.take(i as int) =~= s@);
    r
}

/// Whether two byte strings are equal up to ASCII case.
pub fn eq_fold(a: &[u8], b: &[u8]) -> (r: bool)
    ensures
        r == (lower_all(a@) == lower_all(b@)),
{
    if a.len() != b.len() {
        assert(lower_all(a@).len() != lower_all(b@).len());
        return false;
    }
    let mut i: usize = 0;
    while i < a.len()
        invariant
            i <= a.len(),
            a.len() == b.len(),
            forall|j: int| 0 <= j < i ==> lower(a@[j]) == lower(b@[j]),
        decreases a.len() - i,
    {
        if to_lower(a[i]) != to_lower(b[i]) {
            assert(lower_all(a@)[i as int] != lower_all(b@)[i as int]);
            return false;
        }
        i += 1;
    }
    assert(lower_all(a@) =~= lower_all(b@));
    true
}

/// Whether two byte strings are equal.
pub fn eq_bytes(a: &[u8], b: &[u8]) -> (r: bool)
    ensures
        r == (a@ == b@),
{
    if a.len() != b.len() {
        return false;
    }
    let mut i: usize = 0;
    while i < a.len()
        invariant
            i <= a.len(),
            a.len() == b.len(),
            forall|j: int| 0 <= j < i ==> a@[j] == b@[j],
        decreases a.len() - i,
    {
        if a[i] != b[i] {
            return false;
        }
        i += 1;
    }
    assert(a@ =~= b@);
    true
}

/// Whether `b` separates query words.
pub fn blank(b: u8) -> (r: bool)
    ensures
        r == is_blank(b),
{
    b == 32 || b == 9 || b == 10 || b == 12 || b == 13
}

/// Splits at blanks; no empty word comes out.
pub fn split_words(s: &[u8]) -> (r: Vec<Vec<u8>>)
    ensures
        views(r@) == words(s@),
{
    let mut out: Vec<Vec<u8>> = Vec::new();
    let mut cur: Vec<u8> = Vec::new();
    let mut i: usize = 0;
    while i < s.len()
        invariant
            i <= s.len(),
            cur.len() > 0 <==> i > 0 && !is_blank(s@[i - 1]),
            words(s@.take(i as int)) == (if cur.len() > 0 {
                views(out@).push(cur@)
            } else {
                views(out@)
            }),
        decreases s.len() - i,
    {
        let b: u8 = s[i];
        let ghost t = s@.take(i + 1);
        assert(t.drop_last() =~= s@.take(i as int));
        assert(t.last() == b);
        assert(i > 0 ==> t[t.len() - 2] == s@[i - 1]);
        if blank(b) {
            if cur.len() > 0 {
                let ghost o = out@;
                let ghost c = cur;
                out.push(cur);
                cur = Vec::new();
                assert(views(out@) =~= views(o).push(c@));
            }
        } else {
            let ghost c = cur@;
            cur.push(b);
            proof {
                if c.len() > 0 {
                    let w = words(s@.take(i as int));
                    assert(w.drop_last() =~= views(out@));
                    assert(w.last() == c);
                } else {
                    assert(cur@ =~= seq![b]);
                }
            }
        }
        i += 1;
    }
    assert(s@.take(i as int) =~= s@);
    if cur.len() > 0 {
        let ghost o = out@;
        let ghost c = cur;
        out.push(cur);
        assert(views(out@) =~= views(o).push(c@));
    }
    out
}

/// Splits at every occurrence of `sep`.
pub fn split_at_byte(s: &[u8], sep: u8) -> (r: Vec<Vec<u8>>)
    ensures
        views(r@) == split(s@, sep),
        r.len() > 0,
{
    let mut out: Vec<Vec<u8>> = Vec::new();
    let mut cur: Vec<u8> = Vec::new();
    let mut i: usize = 0;
    assert(views(out@).push(cur@) =~= seq![Seq::<u8>::empty()]);
    while i < s.len()
        invariant
            i <= s.len(),
            split(s@.take(i as int), sep) == views(out@).push(cur@),
        decreases s.len() - i,
    {
        let b: u8 = s[i];
        let ghost t = s@.take(i + 1);
        assert(t.drop_last() =~= s@.take(i as int));
        assert(t.last() == b);
        let ghost w = split(s@.take(i as int), sep);
        assert(w.drop_last() =~= views(out@));
        assert(w.last() == cur@);
        if b == sep {
            let ghost o = out@;
            let ghost c = cur;
            out.push(cur);
            cur = Vec::new();
            assert(views(out@) =~= views(o).push(c@));
            assert(cur@ =~= Seq::empty());
        } else {
            cur.push(b);
        }
        i += 1;
    }
    assert(s@.take(i as int) =~= s@);
    let ghost o = out@;
    let ghost c = cur;
    out.push(cur);
    assert(views(out@) =~= views(o).push(c@));
    out
}

/// The length of `s` without the occurrences of `b` at its end.
pub fn trimmed_len(s: &[u8], b: u8) -> (n: usize)
    ensures
        n <= s.len(),
        s@.take(n as int) == trim_end(s@, b),
{
    let mut n: usize = s.len();
    assert(s@.take(n as int) =~= s@);
    while n > 0 && s[n - 1] == b
        invariant
            n <= s.len(),
            trim_end(s@.take(n as int), b) == trim_end(s@, b),
        decreases n,
    {
        assert(s@.take(n as int).drop_last() =~= s@.take(n - 1));
        n -= 1;
    }
    n
}

/// The words of `s` are what is left between its blanks: none is empty, none
/// holds a blank, and there is none exactly where `s` is all blanks.
pub proof fn law_words_hold_no_blank(s: Seq<u8>)
    ensures
        forall|i: int| 0 <= i < words(s).len() ==> (#[trigger] words(s)[i]).len() > 0,
        forall|i: int, j: int|
            0 <= i < words(s).len() && 0 <= j < words(s)[i].len() ==> !is_blank(
                #[trigger] words(s)[i][j],
            ),
        words(s).len() == 0 <==> (forall|j: int| 0 <= j < s.len() ==> is_blank(#[trigger] s[j])),
    decreases s.len(),
{
    if s.len() > 0 {
        let t = s.drop_last();
        law_words_hold_no_blank(t);
        if is_blank(s.last()) {
            assert(words(s) == words(t));
            if forall|j: int| 0 <= j < t.len() ==> is_blank(#[trigger] t[j]) {
                assert forall|j: int| 0 <= j < s.len() implies is_blank(#[trigger] s[j]) by {
                    if j < t.len() {
                        assert(is_blank(t[j]));
                    }
                }
            }
            if forall|j: int| 0 <= j < s.len() ==> is_blank(#[trigger] s[j]) {
                assert forall|j: int| 0 <= j < t.len() implies is_blank(#[trigger] t[j]) by {
                    assert(is_blank(s[j]));
                }
            }
        } else {
            assert(!is_blank(s[s.len() - 1]));
            if s.len() > 1 && !is_blank(s[s.len() - 2]) {
                assert(!is_blank(t[t.len() - 1]));
            }
        }
    }
}

/// Folding the case first and splitting then gives the folded words.
pub proof fn law_words_fold(s: Seq<u8>)
    ensures
        words(lower_all(s)) == Seq::new(words(s).len(), |i: int| lower_all(words(s)[i])),
    decreases s.len(),
{
    let low = lower_all(s);
    if s.len() > 0 {
        let t = s.drop_last();
        law_words_fold(t);
        law_words_hold_no_blank(t);
        assert(low.drop_last() =~= lower_all(t));
        assert(is_blank(low.last()) == is_blank(s.last()));
        let w = words(t);
        let wl = words(lower_all(t));
        if is_blank(s.last()) {
        } else if s.len() == 1 || is_blank(s[s.len() - 2]) {
            assert(seq![low.last()] =~= lower_all(seq![s.last()]));
        } else {
            assert(!is_blank(t[t.len() - 1]));
            assert(w.len() > 0);
            assert(lower_all(w.last().push(s.last())) =~= wl.last().push(low.last()));
        }
        assert(words(low) =~= Seq::new(words(s).len(), |i: int| lower_all(words(s)[i])));
    } else {
        assert(words(low) =~= Seq::new(words(s).len(), |i: int| lower_all(words(s)[i])));
    }
}

/// Lowering goes place by place: the capital letters of ASCII become the small
/// ones, and every other byte stays.
pub proof fn law_lowering_touches_capitals_only(s: Seq<u8>, i: int)
    requires
        0 <= i < s.len(),
    ensures
        lower_all(s).len() == s.len(),
        65 <= s[i] <= 90 ==> lower_all(s)[i] == s[i] + 32,
        !(65 <= s[i] <= 90) ==> lower_all(s)[i] == s[i],
{
}

/// Lowering texts one after the other is lowering them joined.
pub proof fn law_lowering_joins(a: Seq<u8>, b: Seq<u8>)
    ensures
        lower_all(a + b) == lower_all(a) + lower_all(b),
        lower_all(lower_all(a)) == lower_all(a),
{
    assert(lower_all(a + b) =~= lower_all(a) + lower_all(b));
    assert(lower_all(lower_all(a)) =~= lower_all(a));
}

/// A space, a tab, a line feed, a form feed or a carriage return parts the words
/// before it from those behind it, and nothing else does: what holds none of them
/// is one word.
pub proof fn law_blanks_part_words(a: Seq<u8>, blank: u8, b: Seq<u8>)
    ensures
        blank == 32 || blank == 9 || blank == 10 || blank == 12 || blank == 13 ==> words(
            a + seq![blank] + b,
        ) == words(a) + words(b),
        a.len() > 0 && (forall|i: int|
            0 <= i < a.len() ==> #[trigger] a[i] != 32 && a[i] != 9 && a[i] != 10 && a[i] != 12
                && a[i] != 13) ==> words(a) == seq![a],
        words(Seq::empty()) == Seq::<Seq<u8>>::empty(),
{
    if is_blank(blank) {
        lemma_words_join(a, blank, b);
    }
    if a.len() > 0 && (forall|i: int|
        0 <= i < a.len() ==> #[trigger] a[i] != 32 && a[i] != 9 && a[i] != 10 && a[i] != 12 && a[i]
            != 13) {
        lemma_one_word(a);
    }
}

proof fn lemma_words_join(a: Seq<u8>, blank: u8, b: Seq<u8>)
    requires
        is_blank(blank),
    ensures
        words(a + seq![blank] + b) == words(a) + words(b),
    decreases b.len(),
{
    let s = a + seq![blank] + b;
    if b.len() == 0 {
        assert(s.drop_last() =~= a);
        assert(words(s) =~= words(a) + words(b));
    } else {
        let c = b.drop_last();
        lemma_words_join(a, blank, c);
        assert(s.drop_last() =~= a + seq![blank] + c);
        assert(s.last() == b.last());
        law_words_hold_no_blank(c);
        if b.len() == 1 {
            assert(s[s.len() - 2] == blank);
            assert(words(c) =~= Seq::empty());
        } else {
            assert(s[s.len() - 2] == b[b.len() - 2]);
            if !is_blank(b[b.len() - 2]) {
                assert(c[c.len() - 1] == b[b.len() - 2]);
                assert(words(c).len() > 0);
                assert((words(a) + words(c)).last() == words(c).last());
                assert((words(a) + words(c)).drop_last() =~= words(a) + words(c).drop_last());
            }
        }
        assert(words(s) =~= words(a) + words(b));
    }
}

proof fn lemma_one_word(w: Seq<u8>)
    requires
        w.len() > 0,
        forall|i: int| 0 <= i < w.len() ==> !is_blank(#[trigger] w[i]),
    ensures
        words(w) == seq![w],
    decreases w.len(),
{
    assert(!is_blank(w[w.len() - 1]));
    let most = w.drop_last();
    if w.len() == 1 {
        assert(words(most) =~= Seq::empty());
        assert(seq![w.last()] =~= w);
    } else {
        assert(!is_blank(w[w.len() - 2]));
        assert forall|i: int| 0 <= i < most.len() implies !is_blank(#[trigger] most[i]) by {
            assert(!is_blank(w[i]));
        }
        lemma_one_word(most);
        assert(most.push(w.last()) =~= w);
    }
    assert(words(w) =~= seq![w]);
}

/// A separator parts the pieces before it from those behind it, and what holds
/// none is one piece.
pub proof fn law_separator_parts_pieces(a: Seq<u8>, sep: u8, b: Seq<u8>)
    ensures
        split(a + seq![sep] + b, sep) == split(a, sep) + split(b, sep),
        (forall|i: int| 0 <= i < a.len() ==> #[trigger] a[i] != sep) ==> split(a, sep) == seq![a],
{
    lemma_split_join(a, sep, b);
    if forall|i: int| 0 <= i < a.len() ==> #[trigger] a[i] != sep {
        lemma_one_piece(a, sep);
    }
}

proof fn lemma_split_join(a: Seq<u8>, sep: u8, b: Seq<u8>)
    ensures
        split(b, sep).len() > 0,
        split(a + seq![sep] + b, sep) == split(a, sep) + split(b, sep),
    decreases b.len(),
{
    let s = a + seq![sep] + b;
    if b.len() == 0 {
        assert(s.drop_last() =~= a);
        assert(split(s, sep) =~= split(a, sep) + split(b, sep));
    } else {
        let c = b.drop_last();
        lemma_split_join(a, sep, c);
        assert(s.drop_last() =~= a + seq![sep] + c);
        assert(s.last() == b.last());
        assert((split(a, sep) + split(c, sep)).last() == split(c, sep).last());
        assert((split(a, sep) + split(c, sep)).drop_last() =~= split(a, sep) + split(
            c,
            sep,
        ).drop_last());
        assert(split(s, sep) =~= split(a, sep) + split(b, sep));
    }
}

proof fn lemma_one_piece(w: Seq<u8>, sep: u8)
    requires
        forall|i: int| 0 <= i < w.len() ==> #[trigger] w[i] != sep,
    ensures
        split(w, sep) == seq![w],
    decreases w.len(),
{
    if w.len() == 0 {
        assert(w =~= Seq::empty());
        assert(split(w, sep) =~= seq![w]);
    } else {
        let most = w.drop_last();
        assert(w[w.len() - 1] != sep);
        assert forall|i: int| 0 <= i < most.len() implies #[trigger] most[i] != sep by {
            assert(w[i] != sep);
        }
        lemma_one_piece(most, sep);
        assert(most.push(w.last()) =~= w);
        assert(split(w, sep) =~= seq![w]);
    }
}

/// Trimming takes every occurrence of the byte at the end and nothing else.
pub proof fn law_trimming_takes_all_at_the_end(t: Seq<u8>, b: u8, n: nat)
    requires
        t.len() == 0 || t.last() != b,
    ensures
        trim_end(t + Seq::new(n, |i: int| b), b) == t,
    decreases n,
{
    let s = t + Seq::new(n, |i: int| b);
    if n == 0 {
        assert(s =~= t);
    } else {
        assert(s.drop_last() =~= t + Seq::new((n - 1) as nat, |i: int| b));
        law_trimming_takes_all_at_the_end(t, b, (n - 1) as nat);
    }
}

} // verus!
