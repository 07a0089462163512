//! The order of search results.

use vstd::prelude::*;
use vstd::relations::*;

verus! {

/// What a search result is ordered by: an exact match first, then a prefix
/// match, folders, shallow paths, and the lowered name. The flags are negated,
/// so that a match comes before what is none.
#[derive(Debug, Clone)]
pub struct ScoreKey {
    pub not_exact: bool,
    pub not_prefix: bool,
    pub not_dir: bool,
    pub depth: u16,
    pub name_lower: Vec<u8>,
}

/// What a [`ScoreKey`] holds.
#[verifier::ext_equal]
pub struct KeyView {
    pub not_exact: bool,
    pub not_prefix: bool,
    pub not_dir: bool,
    pub depth: u16,
    pub name_lower: Seq<u8>,
}

impl View for ScoreKey {
    type V = KeyView;

    open spec fn view(&self) -> KeyView {
        KeyView {
            not_exact: self.not_exact,
            not_prefix: self.not_prefix,
            not_dir: self.not_dir,
            depth: self.depth,
            name_lower: self.name_lower@,
        }
    }
}

/// A candidate: its key and its node.
pub type Hit = (ScoreKey, u32);

/// What a [`Hit`] holds.
pub type HitView = (KeyView, u32);

/// What a sequence of candidates holds.
pub open spec fn hit_views(hits: Seq<Hit>) -> Seq<HitView> {
    Seq::new(hits.len(), |i: int| (hits[i].0@, hits[i].1))
}

/// Whether `a` from position `i` on comes before `b` from there on in the
/// order of a dictionary.
pub open spec fn lex_before(a: Seq<u8>, b: Seq<u8>, i: int) -> bool
    decreases b.len() - i,
{
    if i < 0 || i >= b.len() {
        false
    } else if i >= a.len() {
        true
    } else {
        a[i] < b[i] || (a[i] == b[i] && lex_before(a, b, i + 1))
    }
}

/// Whether `false` on the left stands against `true` on the right.
pub open spec fn flag_before(a: bool, b: bool) -> bool {
    !a && b
}

/// Whether key `a` comes strictly before key `b`: by the first field in which
/// they differ.
pub open spec fn key_before(a: KeyView, b: KeyView) -> bool {
    if a.not_exact != b.not_exact {
        flag_before(a.not_exact, b.not_exact)
    } else if a.not_prefix != b.not_prefix {
        flag_before(a.not_prefix, b.not_prefix)
    } else if a.not_dir != b.not_dir {
        flag_before(a.not_dir, b.not_dir)
    } else if a.depth != b.depth {
        a.depth < b.depth
    } else {
        lex_before(a.name_lower, b.name_lower, 0)
    }
}

/// The order of the results: by key, and by node where the keys are equal.
pub open spec fn hit_leq(a: HitView, b: HitView) -> bool {
    key_before(a.0, b.0) || (a.0 == b.0 && a.1 <= b.1)
}

/// [`hit_leq`] as a relation.
pub open spec fn hit_order() -> spec_fn(HitView, HitView) -> bool {
    |a: HitView, b: HitView| hit_leq(a, b)
}

/// The candidates in the order of the results.
pub open spec fn ranking(hits: Seq<HitView>) -> Seq<HitView> {
    hits.sort_by(hit_order())
}

proof fn lemma_lex_total(a: Seq<u8>, b: Seq<u8>, i: int)
    requires
        0 <= i <= a.len(),
        0 <= i <= b.len(),
        forall|j: int| 0 <= j < i ==> a[j] == b[j],
    ensures
        lex_before(a, b, i) || lex_before(b, a, i) || a == b,
        !(lex_before(a, b, i) && lex_before(b, a, i)),
        a == b ==> !lex_before(a, b, i),
    decreases a.len() - i,
{
    if i < a.len() && i < b.len() {
        if a[i] == b[i] {
            lemma_lex_total(a, b, i + 1);
        }
    } else if a.len() == b.len() {
        assert(a =~= b);
    }
}

proof fn lemma_lex_transitive(a: Seq<u8>, b: Seq<u8>, c: Seq<u8>, i: int)
    requires
        0 <= i,
        lex_before(a, b, i),
        lex_before(b, c, i),
    ensures
        lex_before(a, c, i),
    decreases c.len() - i,
{
    if i < a.len() && a[i] == b[i] && b[i] == c[i] {
        lemma_lex_transitive(a, b, c, i + 1);
    }
}

/// The order of the results is total: it ranks any two distinct candidates one
/// way and not the other.
pub proof fn law_order_is_total()
    ensures
        total_ordering(hit_order()),
{
    let r = hit_order();
    assert forall|x: HitView| #[trigger] r(x, x) by {
        assert(hit_leq(x, x));
    }
    assert forall|x: HitView, y: HitView| #[trigger] r(x, y) && #[trigger] r(y, x) implies x
        == y by {
        lemma_lex_total(x.0.name_lower, y.0.name_lower, 0);
        assert(hit_leq(x, y) && hit_leq(y, x));
    }
    assert forall|x: HitView, y: HitView| #[trigger] r(x, y) || #[trigger] r(y, x) by {
        lemma_lex_total(x.0.name_lower, y.0.name_lower, 0);
        assert(hit_leq(x, y) || hit_leq(y, x)) by {
            if !key_before(x.0, y.0) && !key_before(y.0, x.0) {
                assert(x.0 =~= y.0);
            }
        }
    }
    assert forall|x: HitView, y: HitView, z: HitView| #[trigger]
        r(x, y) && #[trigger] r(y, z) implies r(x, z) by {
        assert(hit_leq(x, y) && hit_leq(y, z));
        let (a, b, c) = (x.0.name_lower, y.0.name_lower, z.0.name_lower);
        if lex_before(a, b, 0) && lex_before(b, c, 0) {
            lemma_lex_transitive(a, b, c, 0);
        }
        assert(hit_leq(x, z));
    }
}

/// The ranking holds the candidates themselves, each as often as it was found,
/// best first.
pub proof fn law_ranking_reorders(hits: Seq<HitView>)
    ensures
        ranking(hits).to_multiset() == hits.to_multiset(),
        ranking(hits).len() == hits.len(),
        forall|i: int, j: int|
            0 <= i < j < hits.len() ==> hit_leq(
                #[trigger] ranking(hits)[i],
                #[trigger] ranking(hits)[j],
            ),
{
    broadcast use vstd::seq_lib::group_to_multiset_ensures;

    law_order_is_total();
    hits.lemma_sort_by_ensures(hit_order());
    assert(ranking(hits).len() == ranking(hits).to_multiset().len());
    assert forall|i: int, j: int| 0 <= i < j < hits.len() implies hit_leq(
        #[trigger] ranking(hits)[i],
        #[trigger] ranking(hits)[j],
    ) by {
        assert(hit_order()(ranking(hits)[i], ranking(hits)[j]));
    }
}

/// The first `limit` entries of a list, or all of a shorter one.
pub open spec fn cut(hits: Seq<HitView>, limit: int) -> Seq<HitView> {
    if limit < hits.len() {
        hits.take(limit)
    } else {
        hits
    }
}

/// The rankings of two joined lists do not depend on which comes first.
proof fn lemma_ranking_joins(a: Seq<HitView>, b: Seq<HitView>)
    ensures
        ranking(a + b) == ranking(b + a),
{
    law_order_is_total();
    (a + b).lemma_sort_by_ensures(hit_order());
    (b + a).lemma_sort_by_ensures(hit_order());
    vstd::seq_lib::lemma_seq_union_to_multiset_commutative(a, b);
    vstd::seq_lib::lemma_sorted_unique(ranking(a + b), ranking(b + a), hit_order());
}

proof fn lemma_best_of_joined(a: Seq<HitView>, b: Seq<HitView>, limit: int, i: int)
    requires
        0 <= i < limit,
        i < (a + b).len(),
        a.contains(ranking(a + b)[i]),
    ensures
        cut(ranking(a), limit).contains(ranking(a + b)[i]),
{
    broadcast use vstd::multiset::group_multiset_axioms;
    broadcast use vstd::seq_lib::group_to_multiset_ensures;

    law_order_is_total();
    law_ranking_reorders(a);
    law_ranking_reorders(a + b);
    let o = hit_order();
    let ra = ranking(a);
    let r = ranking(a + b);
    let x = r[i];
    assert(a.to_multiset().count(x) > 0);
    assert(ra.to_multiset().count(x) > 0);
    assert(ra.contains(x));
    if limit < ra.len() && !ra.take(limit).contains(x) {
        let s = ra.take(limit);
        let low = r.take(i);
        let high = r.skip(i);
        let at = choose|j: int| 0 <= j < ra.len() && ra[j] == x;
        assert(at >= limit) by {
            if at < limit {
                assert(s[at] == x);
            }
        }
        assert(ra =~= s + ra.skip(limit));
        vstd::seq_lib::lemma_multiset_commutative(s, ra.skip(limit));
        vstd::seq_lib::lemma_multiset_commutative(a, b);
        assert(r =~= low + high);
        vstd::seq_lib::lemma_multiset_commutative(low, high);
        assert forall|v: HitView| s.to_multiset().count(v) <= #[trigger] low.to_multiset().count(
            v,
        ) by {
            if s.to_multiset().count(v) > 0 {
                assert(s.contains(v));
                let k = choose|k: int| 0 <= k < s.len() && s[k] == v;
                assert(hit_leq(ra[k], ra[at]));
                assert(o(v, x));
                assert(v != x);
                if high.to_multiset().count(v) > 0 {
                    assert(high.contains(v));
                    let m = choose|m: int| 0 <= m < high.len() && high[m] == v;
                    assert(r[i + m] == v);
                    if m > 0 {
                        assert(hit_leq(r[i], r[i + m]));
                        assert(o(x, v));
                    }
                    assert(false);
                }
                assert(r.to_multiset().count(v) == low.to_multiset().count(v));
                assert(ra.to_multiset().count(v) >= s.to_multiset().count(v));
            }
        }
        assert(s.to_multiset().subset_of(low.to_multiset()));
        vstd::multiset::axiom_len_sub(low.to_multiset(), s.to_multiset());
        assert(s.to_multiset().len() <= low.to_multiset().len());
        assert(false);
    }
}

/// The best `limit` of two joined lists are all among the best `limit` of the
/// one or of the other, so that each list can be cut before they are merged.
pub proof fn law_cut_before_merge(a: Seq<HitView>, b: Seq<HitView>, limit: int)
    requires
        0 <= limit,
    ensures
        forall|x: HitView| #[trigger]
            cut(ranking(a + b), limit).contains(x) ==> cut(ranking(a), limit).contains(x) || cut(
                ranking(b),
                limit,
            ).contains(x),
{
    broadcast use vstd::seq_lib::group_to_multiset_ensures;

    law_ranking_reorders(a + b);
    assert forall|x: HitView| #[trigger] cut(ranking(a + b), limit).contains(x) implies cut(
        ranking(a),
        limit,
    ).contains(x) || cut(ranking(b), limit).contains(x) by {
        let c = cut(ranking(a + b), limit);
        let i = choose|i: int| 0 <= i < c.len() && c[i] == x;
        assert(ranking(a + b)[i] == x);
        assert(ranking(a + b).contains(x));
        assert(ranking(a + b).to_multiset().count(x) > 0);
        assert((a + b).contains(x));
        let k = choose|k: int| 0 <= k < (a + b).len() && (a + b)[k] == x;
        if k < a.len() {
            assert(a[k] == x);
            lemma_best_of_joined(a, b, limit, i);
        } else {
            assert(b[k - a.len()] == x);
            lemma_ranking_joins(a, b);
            lemma_best_of_joined(b, a, limit, i);
        }
    }
}

/// Whether `a` comes before `b` in the order of a dictionary.
fn lex_less(a: &[u8], b: &[u8]) -> (r: bool)
    ensures
        r == lex_before(a@, b@, 0),
{
    let mut i: usize = 0;
    while i < a.len() && i < b.len()
        invariant
            i <= a.len(),
            i <= b.len(),
            lex_before(a@, b@, 0) == lex_before(a@, b@, i as int),
        decreases a.len() - i,
    {
        if a[i] != b[i] {
            return a[i] < b[i];
        }
        i += 1;
    }
    i < b.len()
}

/// Whether key `a` comes strictly before key `b`.
pub fn key_less(a: &ScoreKey, b: &ScoreKey) -> (r: bool)
    ensures
        r == key_before(a@, b@),
{
    if a.not_exact != b.not_exact {
        b.not_exact
    } else if a.not_prefix != b.not_prefix {
        b.not_prefix
    } else if a.not_dir != b.not_dir {
        b.not_dir
    } else if a.depth != b.depth {
        a.depth < b.depth
    } else {
        lex_less(a.name_lower.as_slice(), b.name_lower.as_slice())
    }
}

/// Whether candidate `a` comes strictly before candidate `b`.
fn hit_less(a: &Hit, b: &Hit) -> (r: bool)
    ensures
        r == !hit_leq((b.0@, b.1), (a.0@, a.1)),
{
    proof {
        lemma_lex_total(a.0.name_lower@, b.0.name_lower@, 0);
    }
    if key_less(&a.0, &b.0) {
        assert(a.0@ != b.0@);
        return true;
    }
    if key_less(&b.0, &a.0) {
        return false;
    }
    assert(a.0@ =~= b.0@);
    a.1 < b.1
}

/// The candidates in reverse.
fn reversed(hits: Vec<Hit>) -> (r: Vec<Hit>)
    ensures
        hit_views(r@) == hit_views(hits@).reverse(),
{
    let ghost n = hits@.len();
    let ghost all = hits@;
    let mut from: Vec<Hit> = hits;
    let mut out: Vec<Hit> = Vec::new();
    while from.len() > 0
        invariant
            n == all.len(),
            from.len() + out.len() == n,
            from@ == all.take(from.len() as int),
            forall|i: int| 0 <= i < out.len() ==> #[trigger] out@[i] == all[n - 1 - i],
        decreases from.len(),
    {
        match from.pop() {
            Some(h) => {
                out.push(h);
            },
            None => {},
        }
    }
    assert(hit_views(out@) =~= hit_views(all).reverse());
    out
}

/// Moving a candidate from one list to another keeps what both hold together.
proof fn lemma_move(a: Seq<HitView>, b: Seq<HitView>, out: Seq<HitView>, x: HitView)
    ensures
        a.push(x).to_multiset().add(b.to_multiset()).add(out.to_multiset())
            == a.to_multiset().add(b.to_multiset()).add(out.push(x).to_multiset()),
        b.to_multiset().add(a.push(x).to_multiset()).add(out.to_multiset())
            == b.to_multiset().add(a.to_multiset()).add(out.push(x).to_multiset()),
{
    broadcast use vstd::multiset::group_multiset_axioms;

    a.to_multiset_ensures();
    out.to_multiset_ensures();
    assert(a.push(x).to_multiset().add(b.to_multiset()).add(out.to_multiset())
        =~= a.to_multiset().add(b.to_multiset()).add(out.push(x).to_multiset()));
    assert(b.to_multiset().add(a.push(x).to_multiset()).add(out.to_multiset())
        =~= b.to_multiset().add(a.to_multiset()).add(out.push(x).to_multiset()));
}

/// Merges two ranked lists.
fn merge(left: Vec<Hit>, right: Vec<Hit>) -> (r: Vec<Hit>)
    requires
        sorted_by(hit_views(left@), hit_order()),
        sorted_by(hit_views(right@), hit_order()),
    ensures
        sorted_by(hit_views(r@), hit_order()),
        hit_views(r@).to_multiset() == hit_views(left@).to_multiset().add(
            hit_views(right@).to_multiset(),
        ),
{
    broadcast use vstd::multiset::group_multiset_axioms;
    broadcast use vstd::seq_lib::group_to_multiset_ensures;

    let ghost total = hit_views(left@).to_multiset().add(hit_views(right@).to_multiset());
    let mut a: Vec<Hit> = left;
    let mut b: Vec<Hit> = right;
    let mut out: Vec<Hit> = Vec::new();
    assert(hit_views(out@) =~= Seq::empty());
    assert(hit_views(out@).reverse() =~= Seq::empty());
    while a.len() > 0 || b.len() > 0
        invariant
            sorted_by(hit_views(a@), hit_order()),
            sorted_by(hit_views(b@), hit_order()),
            sorted_by(hit_views(out@).reverse(), hit_order()),
            forall|i: int, j: int|
                0 <= i < a.len() && 0 <= j < out.len() ==> hit_leq(
                    #[trigger] hit_views(a@)[i],
                    #[trigger] hit_views(out@)[j],
                ),
            forall|i: int, j: int|
                0 <= i < b.len() && 0 <= j < out.len() ==> hit_leq(
                    #[trigger] hit_views(b@)[i],
                    #[trigger] hit_views(out@)[j],
                ),
            hit_views(a@).to_multiset().add(hit_views(b@).to_multiset()).add(
                hit_views(out@).to_multiset(),
            ) == total,
        decreases a.len() + b.len(),
    {
        proof {
            law_order_is_total();
        }
        let take_a: bool = if a.len() == 0 {
            false
        } else if b.len() == 0 {
            true
        } else {
            hit_less(&b[b.len() - 1], &a[a.len() - 1])
        };
        let ghost (va, vb, vo) = (hit_views(a@), hit_views(b@), hit_views(out@));
        let next: Option<Hit> = if take_a {
            a.pop()
        } else {
            b.pop()
        };
        match next {
            Some(h) => {
                let ghost x = (h.0@, h.1);
                out.push(h);
                proof {
                    let o = hit_order();
                    assert(hit_views(out@) =~= vo.push(x));
                    assert(hit_views(out@).reverse() =~= seq![x] + vo.reverse());
                    assert forall|i: int| 0 <= i < va.len() implies hit_leq(
                        #[trigger] va[i],
                        x,
                    ) by {
                        if take_a {
                            if i < va.len() - 1 {
                                assert(o(va[i], va[va.len() - 1]));
                            } else {
                                assert(o(x, x));
                            }
                        } else {
                            let la = va[va.len() - 1];
                            if i < va.len() - 1 {
                                assert(o(va[i], la));
                            } else {
                                assert(o(la, la));
                            }
                            assert(o(la, x));
                            assert(o(va[i], la));
                            assert(o(va[i], x));
                        }
                    }
                    assert forall|i: int| 0 <= i < vb.len() implies hit_leq(
                        #[trigger] vb[i],
                        x,
                    ) by {
                        if !take_a {
                            if i < vb.len() - 1 {
                                assert(o(vb[i], vb[vb.len() - 1]));
                            } else {
                                assert(o(x, x));
                            }
                        } else {
                            let lb = vb[vb.len() - 1];
                            if i < vb.len() - 1 {
                                assert(o(vb[i], lb));
                            } else {
                                assert(o(lb, lb));
                            }
                            assert(o(lb, x) || o(x, lb));
                            assert(o(lb, x));
                            assert(o(vb[i], lb));
                            assert(o(vb[i], x));
                        }
                    }
                    if take_a {
                        assert(hit_views(a@) =~= va.drop_last());
                        assert(va =~= va.drop_last().push(x));
                        lemma_move(va.drop_last(), vb, vo, x);
                    } else {
                        assert(hit_views(b@) =~= vb.drop_last());
                        assert(vb =~= vb.drop_last().push(x));
                        lemma_move(vb.drop_last(), va, vo, x);
                    }
                    let rv = hit_views(out@).reverse();
                    assert forall|i: int, j: int| 0 <= i < j < rv.len() implies #[trigger] o(
                        rv[i],
                        rv[j],
                    ) by {
                        if i == 0 {
                            assert(rv[j] == vo[vo.len() - j]);
                            if take_a {
                                assert(hit_leq(va[va.len() - 1], vo[vo.len() - j]));
                            } else {
                                assert(hit_leq(vb[vb.len() - 1], vo[vo.len() - j]));
                            }
                        } else {
                            assert(o(vo.reverse()[i - 1], vo.reverse()[j - 1]));
                        }
                    }
                    assert forall|i: int, j: int|
                        0 <= i < a.len() && 0 <= j < out.len() implies hit_leq(
                        #[trigger] hit_views(a@)[i],
                        #[trigger] hit_views(out@)[j],
                    ) by {
                        assert(hit_views(a@)[i] == va[i]);
                        if j < vo.len() {
                            assert(hit_leq(va[i], vo[j]));
                        }
                    }
                    assert forall|i: int, j: int|
                        0 <= i < b.len() && 0 <= j < out.len() implies hit_leq(
                        #[trigger] hit_views(b@)[i],
                        #[trigger] hit_views(out@)[j],
                    ) by {
                        assert(hit_views(b@)[i] == vb[i]);
                        if j < vo.len() {
                            assert(hit_leq(vb[i], vo[j]));
                        }
                    }
                    assert forall|i: int, j: int|
                        0 <= i < j < hit_views(a@).len() implies #[trigger] o(
                        hit_views(a@)[i],
                        hit_views(a@)[j],
                    ) by {
                        assert(o(va[i], va[j]));
                    }
                    assert forall|i: int, j: int|
                        0 <= i < j < hit_views(b@).len() implies #[trigger] o(
                        hit_views(b@)[i],
                        hit_views(b@)[j],
                    ) by {
                        assert(o(vb[i], vb[j]));
                    }
                }
            },
            None => {},
        }
    }
    proof {
        assert(hit_views(a@) =~= Seq::empty());
        assert(hit_views(b@) =~= Seq::empty());
        hit_views(out@).lemma_reverse_to_multiset();
        assert(hit_views(out@).to_multiset() =~= total);
    }
    reversed(out)
}

/// Ranks the candidates, best first.
pub fn rank_hits(hits: Vec<Hit>) -> (r: Vec<Hit>)
    ensures
        hit_views(r@) == ranking(hit_views(hits@)),
{
    let ghost all = hit_views(hits@);
    let r: Vec<Hit> = sort_hits(hits);
    proof {
        law_order_is_total();
        all.lemma_sort_by_ensures(hit_order());
        vstd::seq_lib::lemma_sorted_unique(hit_views(r@), ranking(all), hit_order());
    }
    r
}

/// Sorts by halves.
fn sort_hits(hits: Vec<Hit>) -> (r: Vec<Hit>)
    ensures
        sorted_by(hit_views(r@), hit_order()),
        hit_views(r@).to_multiset() == hit_views(hits@).to_multiset(),
    decreases hits.len(),
{
    if hits.len() <= 1 {
        return hits;
    }
    let ghost all = hits@;
    let mid: usize = hits.len() / 2;
    let mut left: Vec<Hit> = hits;
    let right: Vec<Hit> = left.split_off(mid);
    proof {
        assert(hit_views(all) =~= hit_views(left@) + hit_views(right@));
        vstd::seq_lib::lemma_multiset_commutative(hit_views(left@), hit_views(right@));
    }
    let l: Vec<Hit> = sort_hits(left);
    let r: Vec<Hit> = sort_hits(right);
    merge(l, r)
}

/// The criteria count one after the other: an exact match comes before all
/// others, then a match at the beginning, then a folder, then what stands less
/// deep, and at last the name decides.
pub proof fn law_criteria_in_order(a: KeyView, b: KeyView)
    ensures
        !a.not_exact && b.not_exact ==> key_before(a, b),
        a.not_exact == b.not_exact && !a.not_prefix && b.not_prefix ==> key_before(a, b),
        a.not_exact == b.not_exact && a.not_prefix == b.not_prefix && !a.not_dir && b.not_dir
            ==> key_before(a, b),
        a.not_exact == b.not_exact && a.not_prefix == b.not_prefix && a.not_dir == b.not_dir
            && a.depth < b.depth ==> key_before(a, b),
        a.not_exact == b.not_exact && a.not_prefix == b.not_prefix && a.not_dir == b.not_dir
            && a.depth == b.depth ==> key_before(a, b) == lex_before(
            a.name_lower,
            b.name_lower,
            0,
        ),
{
}

/// The lists, one after the other.
pub open spec fn all_of(lists: Seq<Seq<HitView>>) -> Seq<HitView>
    decreases lists.len(),
{
    if lists.len() == 0 {
        Seq::empty()
    } else {
        all_of(lists.drop_last()) + lists.last()
    }
}

/// The best `limit` of any number of lists are all among the best `limit` of one
/// of them.
pub proof fn law_cut_each_before_merge(lists: Seq<Seq<HitView>>, limit: int, x: HitView)
    requires
        0 <= limit,
        cut(ranking(all_of(lists)), limit).contains(x),
    ensures
        exists|i: int| 0 <= i < lists.len() && cut(ranking(#[trigger] lists[i]), limit).contains(x),
    decreases lists.len(),
{
    if lists.len() == 0 {
        law_ranking_reorders(Seq::empty());
        let c = cut(ranking(all_of(lists)), limit);
        let i = choose|i: int| 0 <= i < c.len() && c[i] == x;
        assert(false);
    } else {
        let most = lists.drop_last();
        law_cut_before_merge(all_of(most), lists.last(), limit);
        if cut(ranking(all_of(most)), limit).contains(x) {
            law_cut_each_before_merge(most, limit, x);
            let i = choose|i: int|
                0 <= i < most.len() && cut(ranking(#[trigger] most[i]), limit).contains(x);
            assert(lists[i] == most[i]);
        } else {
            assert(cut(ranking(lists[lists.len() - 1]), limit).contains(x));
        }
    }
}

} // verus!
