//! Searching an index: collecting the nodes that match, ranking them, and
//! making results of the best.

use vstd::prelude::*;

use crate::ascii;
use crate::ascii::{eq_bytes, to_lower_all};
use crate::category;
use crate::category::Category;
use crate::index::Index;
use crate::model;
use crate::model::{IndexView, MAX_STEPS};
use crate::pattern;
use crate::pattern::{all_terms_match, compile_query, CompiledTerm, TermView};
use crate::rank;
use crate::rank::{rank_hits, Hit, HitView, KeyView, ScoreKey};
use crate::text;

verus! {

/// One search result.
#[derive(Debug, Clone)]
pub struct SearchResult {
    pub name: String,
    pub path: String,
    pub is_dir: bool,
}

/// What a [`SearchResult`] holds.
#[verifier::ext_equal]
pub struct ResultView {
    pub name: Seq<char>,
    pub path: Seq<char>,
    pub is_dir: bool,
}

impl View for SearchResult {
    type V = ResultView;

    open spec fn view(&self) -> ResultView {
        ResultView { name: self.name@, path: self.path@, is_dir: self.is_dir }
    }
}

/// What a sequence of results holds.
pub open spec fn result_views(rs: Seq<SearchResult>) -> Seq<ResultView> {
    Seq::new(rs.len(), |i: int| rs[i]@)
}

/// At least this many candidates are collected before a search stops.
pub const CAND_CAP_MIN: usize = 2000;

/// How many candidates are collected for `limit` results.
pub open spec fn cap_of(limit: usize) -> int {
    if limit * 20 > usize::MAX {
        usize::MAX as int
    } else if limit * 20 < CAND_CAP_MIN {
        CAND_CAP_MIN as int
    } else {
        limit * 20
    }
}

/// How many candidates are collected for `limit` results.
pub fn cand_cap(limit: usize) -> (r: usize)
    ensures
        r == cap_of(limit),
{
    match limit.checked_mul(20) {
        Some(n) => if n < CAND_CAP_MIN {
            CAND_CAP_MIN
        } else {
            n
        },
        None => usize::MAX,
    }
}

/// Whether `name` begins with `start`.
pub open spec fn begins(name: Seq<u8>, start: Seq<u8>) -> bool {
    start.len() <= name.len() && name.take(start.len() as int) == start
}

/// Whether `name` begins with `start`.
fn starts_with(name: &[u8], start: &[u8]) -> (r: bool)
    ensures
        r == begins(name@, start@),
{
    if start.len() > name.len() {
        return false;
    }
    let head = vstd::slice::slice_subrange(name, 0, start.len());
    assert(head@ =~= name@.take(start@.len() as int));
    eq_bytes(head, start)
}

impl IndexView {
    /// Whether node `id` is what the search looks for: live, not the root, its
    /// name matched by every term, of the category, and below the ancestor
    /// where there is one.
    pub open spec fn matched(
        self,
        terms: Seq<TermView>,
        filter: Category,
        ancestor: Option<u32>,
        id: int,
    ) -> bool {
        &&& 1 <= id < self.nodes.len()
        &&& !self.nodes[id].deleted()
        &&& pattern::all_hit(self.nodes[id].name, terms)
        &&& category::passes(filter, self.nodes[id].name, self.nodes[id].dir())
        &&& match ancestor {
            Some(a) => model::under(self.nodes, id as u32, a, MAX_STEPS as nat),
            None => true,
        }
    }

    /// What node `id` is ranked by. Only the one word of a query, without a
    /// wildcard, can be a whole name or the beginning of one: several words never
    /// are.
    pub open spec fn key_of(self, terms: Seq<TermView>, id: int) -> KeyView {
        let name = ascii::lower_all(self.nodes[id].name);
        KeyView {
            not_exact: !(terms.len() == 1 && !terms[0].has_wild && name == terms[0].lower),
            not_prefix: !(terms.len() == 1 && !terms[0].has_wild && begins(name, terms[0].lower)),
            not_dir: !self.nodes[id].dir(),
            depth: model::depth(self.nodes, id as u32),
            name_lower: name,
        }
    }

    /// The matching nodes before `end`, with their keys, in the order of their
    /// numbers.
    pub open spec fn candidates(
        self,
        terms: Seq<TermView>,
        filter: Category,
        ancestor: Option<u32>,
        end: int,
    ) -> Seq<HitView>
        decreases end,
    {
        if end <= 1 {
            Seq::empty()
        } else {
            let before = self.candidates(terms, filter, ancestor, end - 1);
            if self.matched(terms, filter, ancestor, end - 1) {
                before.push((self.key_of(terms, end - 1), (end - 1) as u32))
            } else {
                before
            }
        }
    }

    /// All the matching nodes.
    pub open spec fn all_candidates(
        self,
        terms: Seq<TermView>,
        filter: Category,
        ancestor: Option<u32>,
    ) -> Seq<HitView> {
        self.candidates(terms, filter, ancestor, self.nodes.len() as int)
    }

    /// The best `limit` of the candidates that are collected for the query.
    pub open spec fn best(
        self,
        query: Seq<u8>,
        filter: Category,
        ancestor: Option<u32>,
        limit: usize,
    ) -> Seq<HitView> {
        let terms = pattern::query_terms(query);
        if terms.len() == 0 {
            Seq::empty()
        } else {
            rank::cut(
                rank::ranking(
                    rank::cut(self.all_candidates(terms, filter, ancestor), cap_of(limit)),
                ),
                limit as int,
            )
        }
    }

    /// The result that is made of node `id`.
    pub open spec fn result_of(self, id: u32) -> ResultView {
        ResultView {
            name: text::utf8_lossy(self.nodes[id as int].name),
            path: self.path_text(id),
            is_dir: self.nodes[id as int].dir(),
        }
    }

    /// The results that are made of the candidates.
    pub open spec fn results_of(self, hits: Seq<HitView>) -> Seq<ResultView> {
        Seq::new(hits.len(), |i: int| self.result_of(hits[i].1))
    }

    /// The results of a search.
    pub open spec fn found(
        self,
        query: Seq<u8>,
        filter: Category,
        ancestor: Option<u32>,
        limit: usize,
    ) -> Seq<ResultView> {
        self.results_of(self.best(query, filter, ancestor, limit))
    }
}

proof fn lemma_candidates_prefix(
    v: IndexView,
    terms: Seq<TermView>,
    filter: Category,
    ancestor: Option<u32>,
    a: int,
    b: int,
)
    requires
        a <= b,
    ensures
        v.candidates(terms, filter, ancestor, a).len() <= v.candidates(
            terms,
            filter,
            ancestor,
            b,
        ).len(),
        v.candidates(terms, filter, ancestor, b).take(
            v.candidates(terms, filter, ancestor, a).len() as int,
        ) == v.candidates(terms, filter, ancestor, a),
    decreases b - a,
{
    let ca = v.candidates(terms, filter, ancestor, a);
    let cb = v.candidates(terms, filter, ancestor, b);
    if a == b {
        assert(cb.take(ca.len() as int) =~= ca);
    } else {
        lemma_candidates_prefix(v, terms, filter, ancestor, a, b - 1);
        let cc = v.candidates(terms, filter, ancestor, b - 1);
        assert(cb.take(ca.len() as int) =~= cc.take(ca.len() as int));
    }
}

proof fn lemma_candidates_in_range(
    v: IndexView,
    terms: Seq<TermView>,
    filter: Category,
    ancestor: Option<u32>,
    end: int,
)
    requires
        v.valid(),
        end <= v.nodes.len(),
    ensures
        forall|i: int|
            0 <= i < v.candidates(terms, filter, ancestor, end).len() ==> {
                let hit = #[trigger] v.candidates(terms, filter, ancestor, end)[i];
                &&& 1 <= hit.1 < end
                &&& v.matched(terms, filter, ancestor, hit.1 as int)
                &&& hit.0 == v.key_of(terms, hit.1 as int)
            },
    decreases end,
{
    if end > 1 {
        lemma_candidates_in_range(v, terms, filter, ancestor, end - 1);
        let before = v.candidates(terms, filter, ancestor, end - 1);
        let c = v.candidates(terms, filter, ancestor, end);
        assert forall|i: int| 0 <= i < c.len() implies {
            let hit = #[trigger] c[i];
            &&& 1 <= hit.1 < end
            &&& v.matched(terms, filter, ancestor, hit.1 as int)
            &&& hit.0 == v.key_of(terms, hit.1 as int)
        } by {
            if i < before.len() {
                assert(c[i] == before[i]);
            }
        }
    }
}

proof fn lemma_candidates_complete(
    v: IndexView,
    terms: Seq<TermView>,
    filter: Category,
    ancestor: Option<u32>,
    end: int,
    id: int,
)
    requires
        v.valid(),
        id < end <= v.nodes.len(),
        v.matched(terms, filter, ancestor, id),
    ensures
        v.candidates(terms, filter, ancestor, end).contains((v.key_of(terms, id), id as u32)),
    decreases end,
{
    let c = v.candidates(terms, filter, ancestor, end);
    let before = v.candidates(terms, filter, ancestor, end - 1);
    if id == end - 1 {
        assert(c[c.len() - 1] == (v.key_of(terms, id), id as u32));
    } else {
        lemma_candidates_complete(v, terms, filter, ancestor, end - 1, id);
        let k = choose|k: int|
            0 <= k < before.len() && before[k] == (v.key_of(terms, id), id as u32);
        assert(c[k] == before[k]);
    }
}

/// What is among the best is among the candidates.
proof fn lemma_best_among(hits: Seq<HitView>, cap: int, limit: int, i: int)
    requires
        0 <= cap,
        0 <= limit,
        0 <= i < rank::cut(rank::ranking(rank::cut(hits, cap)), limit).len(),
    ensures
        hits.contains(rank::cut(rank::ranking(rank::cut(hits, cap)), limit)[i]),
{
    broadcast use vstd::seq_lib::group_to_multiset_ensures;

    let kept = rank::cut(hits, cap);
    let ranked = rank::ranking(kept);
    rank::law_ranking_reorders(kept);
    let x = ranked[i];
    assert(ranked.contains(x));
    assert(ranked.to_multiset().count(x) > 0);
    assert(kept.contains(x));
    let k = choose|k: int| 0 <= k < kept.len() && kept[k] == x;
    assert(hits[k] == x);
}

/// A search returns no more results than asked for.
pub proof fn law_limit_is_kept(
    v: IndexView,
    query: Seq<u8>,
    filter: Category,
    ancestor: Option<u32>,
    limit: usize,
)
    ensures
        v.best(query, filter, ancestor, limit).len() <= limit,
        v.found(query, filter, ancestor, limit).len() <= limit,
{
}

/// Whatever a search returns is a result of a node that it looks for: live, its
/// name matched by every word of the query, of the category, and below the
/// ancestor where there is one.
pub proof fn law_results_match(
    v: IndexView,
    query: Seq<u8>,
    filter: Category,
    ancestor: Option<u32>,
    limit: usize,
)
    requires
        v.valid(),
    ensures
        forall|i: int|
            0 <= i < v.best(query, filter, ancestor, limit).len() ==> {
                let hit = #[trigger] v.best(query, filter, ancestor, limit)[i];
                &&& v.matched(pattern::query_terms(query), filter, ancestor, hit.1 as int)
                &&& hit.0 == v.key_of(pattern::query_terms(query), hit.1 as int)
            },
{
    let terms = pattern::query_terms(query);
    let all = v.all_candidates(terms, filter, ancestor);
    lemma_candidates_in_range(v, terms, filter, ancestor, v.nodes.len() as int);
    assert forall|i: int| 0 <= i < v.best(query, filter, ancestor, limit).len() implies {
        let hit = #[trigger] v.best(query, filter, ancestor, limit)[i];
        &&& v.matched(terms, filter, ancestor, hit.1 as int)
        &&& hit.0 == v.key_of(terms, hit.1 as int)
    } by {
        lemma_best_among(all, cap_of(limit), limit as int, i);
        let hit = v.best(query, filter, ancestor, limit)[i];
        let k = choose|k: int| 0 <= k < all.len() && all[k] == hit;
        assert(all[k] == hit);
    }
}

/// Where no more nodes match than are asked for, a search returns every one of
/// them.
pub proof fn law_search_is_complete(
    v: IndexView,
    query: Seq<u8>,
    filter: Category,
    ancestor: Option<u32>,
    limit: usize,
    id: int,
)
    requires
        v.valid(),
        pattern::query_terms(query).len() > 0,
        v.all_candidates(pattern::query_terms(query), filter, ancestor).len() <= limit,
        v.matched(pattern::query_terms(query), filter, ancestor, id),
    ensures
        v.best(query, filter, ancestor, limit).contains(
            (v.key_of(pattern::query_terms(query), id), id as u32),
        ),
{
    broadcast use vstd::seq_lib::group_to_multiset_ensures;

    let terms = pattern::query_terms(query);
    let all = v.all_candidates(terms, filter, ancestor);
    let x = (v.key_of(terms, id), id as u32);
    lemma_candidates_complete(v, terms, filter, ancestor, v.nodes.len() as int, id);
    assert(rank::cut(all, cap_of(limit)) == all);
    rank::law_ranking_reorders(all);
    assert(all.to_multiset().count(x) > 0);
    assert(rank::ranking(all).contains(x));
}

/// The results are in order: each key comes before the next or is equal to it.
pub proof fn law_results_are_ranked(
    v: IndexView,
    query: Seq<u8>,
    filter: Category,
    ancestor: Option<u32>,
    limit: usize,
    i: int,
    j: int,
)
    requires
        0 <= i < j < v.best(query, filter, ancestor, limit).len(),
    ensures
        rank::hit_leq(
            v.best(query, filter, ancestor, limit)[i],
            v.best(query, filter, ancestor, limit)[j],
        ),
{
    let kept = rank::cut(
        v.all_candidates(pattern::query_terms(query), filter, ancestor),
        cap_of(limit),
    );
    rank::law_ranking_reorders(kept);
    assert(rank::hit_leq(rank::ranking(kept)[i], rank::ranking(kept)[j]));
}

/// Where no more nodes match than are collected, what a search leaves out comes
/// after everything that it returns.
pub proof fn law_nothing_better_is_left_out(
    v: IndexView,
    query: Seq<u8>,
    filter: Category,
    ancestor: Option<u32>,
    limit: usize,
    id: int,
    i: int,
)
    requires
        v.valid(),
        pattern::query_terms(query).len() > 0,
        v.all_candidates(pattern::query_terms(query), filter, ancestor).len() <= cap_of(limit),
        v.matched(pattern::query_terms(query), filter, ancestor, id),
        !v.best(query, filter, ancestor, limit).contains(
            (v.key_of(pattern::query_terms(query), id), id as u32),
        ),
        0 <= i < v.best(query, filter, ancestor, limit).len(),
    ensures
        rank::hit_leq(
            v.best(query, filter, ancestor, limit)[i],
            (v.key_of(pattern::query_terms(query), id), id as u32),
        ),
{
    broadcast use vstd::seq_lib::group_to_multiset_ensures;

    let terms = pattern::query_terms(query);
    let all = v.all_candidates(terms, filter, ancestor);
    let ranked = rank::ranking(all);
    let best = v.best(query, filter, ancestor, limit);
    let x = (v.key_of(terms, id), id as u32);
    lemma_candidates_complete(v, terms, filter, ancestor, v.nodes.len() as int, id);
    assert(rank::cut(all, cap_of(limit)) == all);
    rank::law_ranking_reorders(all);
    assert(all.to_multiset().count(x) > 0);
    assert(ranked.contains(x));
    let k = choose|k: int| 0 <= k < ranked.len() && ranked[k] == x;
    if k < best.len() {
        assert(best[k] == x);
    }
    assert(best[i] == ranked[i]);
    assert(rank::hit_leq(ranked[i], ranked[k]));
}

/// A query of nothing but blanks finds nothing, and the case of its ASCII
/// letters does not matter.
pub proof fn law_query_by_its_words(
    v: IndexView,
    a: Seq<u8>,
    b: Seq<u8>,
    filter: Category,
    ancestor: Option<u32>,
    limit: usize,
)
    requires
        ascii::lower_all(a) == ascii::lower_all(b),
    ensures
        v.found(a, filter, ancestor, limit) == v.found(b, filter, ancestor, limit),
        (forall|j: int| 0 <= j < a.len() ==> ascii::is_blank(#[trigger] a[j])) ==> v.found(
            a,
            filter,
            ancestor,
            limit,
        ).len() == 0,
{
    pattern::law_query_ignores_case(a, b);
    ascii::law_words_hold_no_blank(a);
}

/// A search of the whole volume finds what a search below the ancestor finds,
/// as far as candidates go.
pub proof fn law_subtree_narrows(
    v: IndexView,
    terms: Seq<TermView>,
    filter: Category,
    ancestor: u32,
    id: int,
)
    requires
        v.matched(terms, filter, Some(ancestor), id),
    ensures
        v.matched(terms, filter, None, id),
{
}

/// A node is below the root exactly where it is less than the most steps deep.
pub proof fn law_all_is_below_the_root(v: IndexView, id: u32)
    requires
        v.valid(),
        v.consistent(),
        id < v.nodes.len(),
    ensures
        model::under(v.nodes, id, model::ROOT_ID, MAX_STEPS as nat) <==> model::lineage(
            v.nodes,
            id,
            MAX_STEPS as nat,
        ).len() < MAX_STEPS,
{
    lemma_below_root(v, id, MAX_STEPS as nat);
}

proof fn lemma_below_root(v: IndexView, id: u32, steps: nat)
    requires
        v.valid(),
        v.consistent(),
        id < v.nodes.len(),
    ensures
        model::under(v.nodes, id, model::ROOT_ID, steps) <==> model::lineage(
            v.nodes,
            id,
            steps,
        ).len() < steps,
    decreases steps,
{
    if steps > 0 && id != model::ROOT_ID {
        assert(v.nodes[id as int].parent != u32::MAX);
        lemma_below_root(v, v.nodes[id as int].parent, (steps - 1) as nat);
    }
}

/// A search below the root is a search of the whole volume, where no node is so
/// deep that the way to the root is not followed to its end.
pub proof fn law_search_below_the_root(
    v: IndexView,
    query: Seq<u8>,
    filter: Category,
    limit: usize,
)
    requires
        v.valid(),
        v.consistent(),
        forall|id: u32|
            id < v.nodes.len() ==> #[trigger] model::lineage(v.nodes, id, MAX_STEPS as nat).len()
                < MAX_STEPS,
    ensures
        v.found(query, filter, Some(model::ROOT_ID), limit) == v.found(query, filter, None, limit),
{
    let terms = pattern::query_terms(query);
    assert forall|id: int| v.matched(terms, filter, Some(model::ROOT_ID), id) == #[trigger]
        v.matched(terms, filter, None, id) by {
        if 1 <= id < v.nodes.len() {
            law_all_is_below_the_root(v, id as u32);
            assert(model::lineage(v.nodes, id as u32, MAX_STEPS as nat).len() < MAX_STEPS);
        }
    }
    lemma_same_candidates(
        v,
        v,
        terms,
        filter,
        Some(model::ROOT_ID),
        None,
        v.nodes.len() as int,
    );
}

proof fn lemma_same_candidates(
    v: IndexView,
    w: IndexView,
    terms: Seq<TermView>,
    filter: Category,
    a: Option<u32>,
    b: Option<u32>,
    end: int,
)
    requires
        v.nodes == w.nodes,
        forall|id: int| v.matched(terms, filter, a, id) == #[trigger] w.matched(
            terms,
            filter,
            b,
            id,
        ),
    ensures
        v.candidates(terms, filter, a, end) == w.candidates(terms, filter, b, end),
    decreases end,
{
    if end > 1 {
        lemma_same_candidates(v, w, terms, filter, a, b, end - 1);
        assert(v.matched(terms, filter, a, end - 1) == w.matched(terms, filter, b, end - 1));
    }
}

/// A search goes by the nodes and the letter of the volume alone, and so do the
/// paths.
pub proof fn law_search_goes_by_nodes(
    v: IndexView,
    w: IndexView,
    query: Seq<u8>,
    filter: Category,
    ancestor: Option<u32>,
    limit: usize,
    id: u32,
)
    requires
        v.nodes == w.nodes,
        v.drive_letter == w.drive_letter,
    ensures
        v.found(query, filter, ancestor, limit) == w.found(query, filter, ancestor, limit),
        v.path_text(id) == w.path_text(id),
{
    let terms = pattern::query_terms(query);
    lemma_same_candidates(v, w, terms, filter, ancestor, ancestor, v.nodes.len() as int);
    assert(v.found(query, filter, ancestor, limit) =~= w.found(query, filter, ancestor, limit));
}

/// A change that comes again is not seen: the nodes, with their names, parents
/// and flags, the tombstones, every path and every search stay as the first time
/// left them. The one exception is an unknown entry that is its own parent.
pub proof fn law_repeated_change_is_not_seen(
    v: IndexView,
    c: model::ChangeView,
    query: Seq<u8>,
    filter: Category,
    ancestor: Option<u32>,
    limit: usize,
    id: u32,
)
    requires
        v.valid(),
        c matches model::ChangeView::Upsert { frn, parent_frn, .. } ==> parent_frn != frn
            || v.by_frn.contains_key(frn),
    ensures
        v.applied(c).applied(c).nodes == v.applied(c).nodes,
        v.applied(c).applied(c).by_frn == v.applied(c).by_frn,
        v.applied(c).applied(c).tombstones == v.applied(c).tombstones,
        v.applied(c).applied(c).path_text(id) == v.applied(c).path_text(id),
        v.applied(c).applied(c).found(query, filter, ancestor, limit) == v.applied(c).found(
            query,
            filter,
            ancestor,
            limit,
        ),
{
    model::law_change_is_idempotent(v, c);
    law_search_goes_by_nodes(
        v.applied(c).applied(c),
        v.applied(c),
        query,
        filter,
        ancestor,
        limit,
        id,
    );
}

/// After the deletion of a known reference no search finds its node.
pub proof fn law_deleted_is_not_found(
    v: IndexView,
    frn: u64,
    terms: Seq<TermView>,
    filter: Category,
    ancestor: Option<u32>,
)
    requires
        v.valid(),
        v.by_frn.contains_key(frn),
    ensures
        !v.applied(model::ChangeView::Delete { frn }).matched(
            terms,
            filter,
            ancestor,
            v.by_frn[frn] as int,
        ),
{
    model::law_deleted_once(v, frn);
}

/// After an upsert the entry is found by every search whose terms match its
/// name and whose filter lets it through.
pub proof fn law_upserted_is_found(
    v: IndexView,
    frn: u64,
    parent_frn: u64,
    attrs: u32,
    name: Seq<char>,
    terms: Seq<TermView>,
    filter: Category,
)
    requires
        v.valid(),
        v.room_for(model::ChangeView::Upsert { frn, parent_frn, attrs, name }),
        !model::root_frn(frn),
        v.consistent(),
        pattern::all_hit(model::stored_name(vstd::utf8::encode_utf8(name)), terms),
        category::passes(
            filter,
            model::stored_name(vstd::utf8::encode_utf8(name)),
            attrs & model::FILE_ATTRIBUTE_DIRECTORY != 0,
        ),
    ensures
        ({
            let w = v.applied(model::ChangeView::Upsert { frn, parent_frn, attrs, name });
            w.matched(terms, filter, None, w.by_frn[frn] as int)
        }),
{
    model::law_upserted_is_there(v, frn, parent_frn, attrs, name);
}

impl Index {
    /// Collects the matching nodes until there are `cap` of them. The second
    /// part of the result says whether it stopped there.
    pub fn collect_scored(
        &self,
        terms: &[CompiledTerm],
        filter: Category,
        ancestor: Option<u32>,
        cap: usize,
    ) -> (r: (Vec<Hit>, bool))
        requires
            self.wf(),
            terms@.len() > 0,
        ensures
            ({
                let all = self@.all_candidates(pattern::term_views(terms@), filter, ancestor);
                let stop = if cap == 0 {
                    1
                } else {
                    cap as int
                };
                &&& rank::hit_views(r.0@) == rank::cut(all, stop)
                &&& r.1 == (all.len() >= stop)
            }),
            forall|i: int| 0 <= i < r.0@.len() ==> (#[trigger] r.0@[i]).1 < self@.nodes.len(),
    {
        let ghost v = self@;
        let ghost tv = pattern::term_views(terms@);
        let ghost all = v.all_candidates(tv, filter, ancestor);
        let mut out: Vec<Hit> = Vec::new();
        let single_plain: bool = terms.len() == 1 && !terms[0].has_wild;
        let n: u32 = self.len() as u32;
        let mut id: u32 = 1;
        assert(rank::hit_views(out@) =~= Seq::empty());
        while id < n
            invariant
                self.wf(),
                v == self@,
                n == v.nodes.len(),
                1 <= id <= n,
                terms@.len() > 0,
                tv == pattern::term_views(terms@),
                all == v.all_candidates(tv, filter, ancestor),
                single_plain == (terms@.len() == 1 && !terms@[0].has_wild),
                rank::hit_views(out@) == v.candidates(tv, filter, ancestor, id as int),
                out@.len() == 0 || out@.len() < cap,
                forall|i: int| 0 <= i < out@.len() ==> (#[trigger] out@[i]).1 < n,
            decreases n - id,
        {
            let nb = self.name_bytes(id);
            let is_dir: bool = self.is_dir(id);
            let matching: bool = !self.is_deleted(id) && all_terms_match(nb, terms)
                && category::matches(filter, nb, is_dir) && (match ancestor {
                Some(a) => self.is_descendant(id, a),
                None => true,
            });
            if matching {
                assert(v.matched(tv, filter, ancestor, id as int));
                let name_lower: Vec<u8> = to_lower_all(nb);
                assert(tv[0] == terms@[0]@);
                let not_exact: bool = !(single_plain && eq_bytes(
                    name_lower.as_slice(),
                    terms[0].lower.as_slice(),
                ));
                let not_prefix: bool = !single_plain || !starts_with(
                    name_lower.as_slice(),
                    terms[0].lower.as_slice(),
                );
                let key = ScoreKey {
                    not_exact,
                    not_prefix,
                    not_dir: !is_dir,
                    depth: self.depth_of(id),
                    name_lower,
                };
                let ghost before = out@;
                out.push((key, id));
                proof {
                    assert(key@ == v.key_of(tv, id as int));
                    assert(rank::hit_views(out@) =~= rank::hit_views(before).push((key@, id)));
                    assert(rank::hit_views(out@) == v.candidates(tv, filter, ancestor, id + 1));
                }
                if out.len() >= cap {
                    proof {
                        lemma_candidates_prefix(v, tv, filter, ancestor, id + 1, n as int);
                        let stop = if cap == 0 {
                            1
                        } else {
                            cap as int
                        };
                        assert(out@.len() == stop);
                        assert(rank::hit_views(out@).len() == out@.len());
                        if all.len() == stop {
                            assert(all.take(stop) =~= all);
                        }
                        assert(rank::hit_views(out@) == rank::cut(all, stop));
                    }
                    return (out, true);
                }
            }
            id += 1;
        }
        assert(rank::hit_views(out@).len() == out@.len());
        (out, false)
    }

    /// The result that is made of a node.
    pub fn materialize(&self, id: u32) -> (r: SearchResult)
        requires
            self.wf(),
            id < self@.nodes.len(),
        ensures
            r@ == self@.result_of(id),
    {
        SearchResult { name: self.name(id), path: self.path(id), is_dir: self.is_dir(id) }
    }

    /// The best `limit` candidates, ranked.
    pub fn collect_sorted(
        &self,
        query: &str,
        filter: Category,
        ancestor: Option<u32>,
        limit: usize,
    ) -> (r: Vec<Hit>)
        requires
            self.wf(),
        ensures
            rank::hit_views(r@) == self@.best(
                vstd::utf8::encode_utf8(query@),
                filter,
                ancestor,
                limit,
            ),
            forall|i: int| 0 <= i < r@.len() ==> (#[trigger] r@[i]).1 < self@.nodes.len(),
    {
        let terms = compile_query(query);
        if terms.len() == 0 {
            let none: Vec<Hit> = Vec::new();
            assert(rank::hit_views(none@) =~= Seq::empty());
            return none;
        }
        let (c, _) = self.collect_scored(terms.as_slice(), filter, ancestor, cand_cap(limit));
        let mut r = rank_hits(c);
        let ghost ranked = rank::hit_views(r@);
        assert(ranked.len() == r@.len());
        if limit < r.len() {
            r.truncate(limit);
            assert(rank::hit_views(r@) =~= ranked.take(limit as int));
        }
        proof {
            self.layout().lemma_valid();
            let q = vstd::utf8::encode_utf8(query@);
            law_results_match(self@, q, filter, ancestor, limit);
            assert forall|i: int| 0 <= i < r@.len() implies (#[trigger] r@[i]).1
                < self@.nodes.len() by {
                assert(rank::hit_views(r@)[i].1 == r@[i].1);
                assert(self@.best(q, filter, ancestor, limit)[i].1 == r@[i].1);
            }
        }
        r
    }

    /// Searches the volume, or what is below the ancestor, and returns the best
    /// `limit` results. A query without a word finds nothing.
    pub fn search_scored(
        &self,
        query: &str,
        filter: Category,
        ancestor: Option<u32>,
        limit: usize,
    ) -> (r: Vec<SearchResult>)
        requires
            self.wf(),
        ensures
            result_views(r@) == self@.found(
                vstd::utf8::encode_utf8(query@),
                filter,
                ancestor,
                limit,
            ),
    {
        let hits = self.collect_sorted(query, filter, ancestor, limit);
        let ghost hv = rank::hit_views(hits@);
        let mut out: Vec<SearchResult> = Vec::new();
        let mut i: usize = 0;
        while i < hits.len()
            invariant
                self.wf(),
                i <= hits@.len(),
                hv == rank::hit_views(hits@),
                forall|k: int|
                    0 <= k < hits@.len() ==> (#[trigger] hits@[k]).1 < self@.nodes.len(),
                out@.len() == i,
                forall|k: int|
                    0 <= k < i ==> (#[trigger] out@[k])@ == self@.result_of(hits@[k].1),
            decreases hits@.len() - i,
        {
            out.push(self.materialize(hits[i].1));
            i += 1;
        }
        assert(result_views(out@) =~= self@.results_of(hv));
        out
    }

    /// Searches the volume.
    pub fn search(&self, query: &str, filter: Category, limit: usize) -> (r: Vec<SearchResult>)
        requires
            self.wf(),
        ensures
            result_views(r@) == self@.found(vstd::utf8::encode_utf8(query@), filter, None, limit),
    {
        self.search_scored(query, filter, None, limit)
    }

    /// Searches what is below `ancestor`.
    pub fn search_under(
        &self,
        query: &str,
        filter: Category,
        ancestor: u32,
        limit: usize,
    ) -> (r: Vec<SearchResult>)
        requires
            self.wf(),
        ensures
            result_views(r@) == self@.found(
                vstd::utf8::encode_utf8(query@),
                filter,
                Some(ancestor),
                limit,
            ),
    {
        self.search_scored(query, filter, Some(ancestor), limit)
    }
}

/// Whether the word is the whole name, the case of ASCII letters aside.
pub open spec fn is_whole_name(w: Seq<u8>, name: Seq<u8>) -> bool {
    ascii::lower_all(name) == ascii::lower_all(w)
}

/// Whether the word is the beginning of the name, the case of ASCII letters aside.
pub open spec fn is_start_of_name(w: Seq<u8>, name: Seq<u8>) -> bool {
    w.len() <= name.len() && ascii::lower_all(name.take(w.len() as int)) == ascii::lower_all(w)
}

/// Whether one text comes before another or is equal to it in the order of a
/// dictionary: at the first place where they differ it has the smaller byte or no
/// byte at all.
pub open spec fn no_later(a: Seq<u8>, b: Seq<u8>) -> bool {
    &&& forall|k: int|
        0 <= k < a.len() && k < b.len() && #[trigger] a.take(k) == b.take(k) ==> a[k] <= b[k]
    &&& b.len() < a.len() ==> a.take(b.len() as int) != b
}

proof fn lemma_no_later(a: Seq<u8>, b: Seq<u8>, i: int)
    requires
        0 <= i <= a.len(),
        i <= b.len(),
        forall|j: int| 0 <= j < i ==> a[j] == b[j],
        rank::lex_before(a, b, i) || a == b,
    ensures
        no_later(a, b),
    decreases a.len() - i,
{
    if a != b {
        if i < a.len() && a[i] == b[i] {
            lemma_no_later(a, b, i + 1);
        } else {
            assert forall|k: int|
                0 <= k < a.len() && k < b.len() && #[trigger] a.take(k) == b.take(k) implies a[k]
                <= b[k] by {
                if k < i {
                    assert(a[k] == b[k]);
                } else if k > i {
                    assert(a.take(k)[i] == b.take(k)[i]);
                }
            }
            if b.len() < a.len() && a.take(b.len() as int) == b {
                assert(a.take(b.len() as int)[i] == b[i]);
            }
        }
    }
}

/// What a node is ranked by says of the node what its name says: for a query of
/// one word without wildcards, whether the name is the word and whether it begins
/// with it; for other queries neither; and for every query whether the node is a
/// folder, how deep it is, and its name.
pub proof fn law_rank_goes_by_the_node(v: IndexView, query: Seq<u8>, id: int)
    requires
        0 <= id < v.nodes.len(),
    ensures
        ({
            let key = v.key_of(pattern::query_terms(query), id);
            let node = v.nodes[id];
            &&& pattern::one_word(query) && pattern::plain(query) ==> key.not_exact
                == !is_whole_name(query, node.name) && key.not_prefix == !is_start_of_name(
                query,
                node.name,
            )
            &&& pattern::one_word(query) && !pattern::plain(query) ==> key.not_exact
                && key.not_prefix
            &&& ascii::words(query).len() >= 2 ==> key.not_exact && key.not_prefix
            &&& key.not_dir <==> node.flags & 1 == 0
            &&& key.depth == model::depth(v.nodes, id as u32)
            &&& key.name_lower == ascii::lower_all(node.name)
        }),
{
    let name = v.nodes[id].name;
    if pattern::one_word(query) {
        pattern::lemma_one_word_query(query);
        let w = ascii::lower_all(query);
        if query.len() <= name.len() {
            assert(ascii::lower_all(name.take(query.len() as int)) =~= ascii::lower_all(name).take(
                query.len() as int,
            ));
        }
    }
}

/// The results of a query of one word without wildcards are in the promised order:
/// names that are the word before those that begin with it, these before the
/// others, folders before files, what is less deep before what is deeper, and then
/// by name.
pub proof fn law_order_for_a_word(
    v: IndexView,
    w: Seq<u8>,
    filter: Category,
    ancestor: Option<u32>,
    limit: usize,
    i: int,
    j: int,
)
    requires
        v.valid(),
        pattern::one_word(w),
        pattern::plain(w),
        0 <= i < j < v.best(w, filter, ancestor, limit).len(),
    ensures
        ({
            let x = v.best(w, filter, ancestor, limit)[i].1;
            let y = v.best(w, filter, ancestor, limit)[j].1;
            let a = v.nodes[x as int];
            let b = v.nodes[y as int];
            let as_whole = is_whole_name(w, a.name) == is_whole_name(w, b.name);
            let as_start = is_start_of_name(w, a.name) == is_start_of_name(w, b.name);
            let as_dir = (a.flags & 1 == 0) == (b.flags & 1 == 0);
            let as_deep = model::depth(v.nodes, x) == model::depth(v.nodes, y);
            &&& is_whole_name(w, b.name) ==> is_whole_name(w, a.name)
            &&& as_whole && is_start_of_name(w, b.name) ==> is_start_of_name(w, a.name)
            &&& as_whole && as_start && b.flags & 1 != 0 ==> a.flags & 1 != 0
            &&& as_whole && as_start && as_dir ==> model::depth(v.nodes, x) <= model::depth(
                v.nodes,
                y,
            )
            &&& as_whole && as_start && as_dir && as_deep ==> no_later(
                ascii::lower_all(a.name),
                ascii::lower_all(b.name),
            )
        }),
{
    let best = v.best(w, filter, ancestor, limit);
    law_results_match(v, w, filter, ancestor, limit);
    law_results_are_ranked(v, w, filter, ancestor, limit, i, j);
    let x = best[i];
    let y = best[j];
    law_rank_goes_by_the_node(v, w, x.1 as int);
    law_rank_goes_by_the_node(v, w, y.1 as int);
    let (a, b) = (x.0.name_lower, y.0.name_lower);
    if rank::lex_before(a, b, 0) || a == b {
        lemma_no_later(a, b, 0);
    }
}

/// The results of a query of several words, or of one with wildcards, are in the
/// promised order: folders before files, what is less deep before what is deeper,
/// and then by name.
pub proof fn law_order_for_other_queries(
    v: IndexView,
    query: Seq<u8>,
    filter: Category,
    ancestor: Option<u32>,
    limit: usize,
    i: int,
    j: int,
)
    requires
        v.valid(),
        ascii::words(query).len() >= 2 || (pattern::one_word(query) && !pattern::plain(query)),
        0 <= i < j < v.best(query, filter, ancestor, limit).len(),
    ensures
        ({
            let x = v.best(query, filter, ancestor, limit)[i].1;
            let y = v.best(query, filter, ancestor, limit)[j].1;
            let a = v.nodes[x as int];
            let b = v.nodes[y as int];
            let as_dir = (a.flags & 1 == 0) == (b.flags & 1 == 0);
            let as_deep = model::depth(v.nodes, x) == model::depth(v.nodes, y);
            &&& b.flags & 1 != 0 ==> a.flags & 1 != 0
            &&& as_dir ==> model::depth(v.nodes, x) <= model::depth(v.nodes, y)
            &&& as_dir && as_deep ==> no_later(
                ascii::lower_all(a.name),
                ascii::lower_all(b.name),
            )
        }),
{
    let best = v.best(query, filter, ancestor, limit);
    law_results_match(v, query, filter, ancestor, limit);
    law_results_are_ranked(v, query, filter, ancestor, limit, i, j);
    let x = best[i];
    let y = best[j];
    law_rank_goes_by_the_node(v, query, x.1 as int);
    law_rank_goes_by_the_node(v, query, y.1 as int);
    let (a, b) = (x.0.name_lower, y.0.name_lower);
    if rank::lex_before(a, b, 0) || a == b {
        lemma_no_later(a, b, 0);
    }
}

/// Whether an entry is one that a search has to find: no root, not deleted, its
/// name matched by every word of the query, of the category, and below the
/// ancestor where there is one.
pub open spec fn wanted(
    v: IndexView,
    query: Seq<u8>,
    filter: Category,
    ancestor: Option<u32>,
    id: u32,
) -> bool {
    let node = v.nodes[id as int];
    &&& 1 <= id < v.nodes.len()
    &&& node.flags & 2 == 0
    &&& pattern::all_hit(node.name, pattern::query_terms(query))
    &&& category::passes(filter, node.name, node.flags & 1 != 0)
    &&& ancestor matches Some(a) ==> model::under(v.nodes, id, a, 4096)
}

/// What a search shows of an entry: its name and its path as text, and whether it
/// is a folder.
pub open spec fn shown(v: IndexView, id: u32) -> ResultView {
    ResultView {
        name: text::utf8_lossy(v.nodes[id as int].name),
        path: v.path_text(id),
        is_dir: v.nodes[id as int].flags & 1 != 0,
    }
}

/// A search shows entries that it has to find and no others, each once, and leaves
/// one out only where it shows as many as were asked for. A query without a word
/// finds nothing.
pub proof fn law_search_finds_what_it_has_to(
    v: IndexView,
    query: Seq<u8>,
    filter: Category,
    ancestor: Option<u32>,
    limit: usize,
    i: int,
    j: int,
    id: u32,
)
    requires
        v.valid(),
    ensures
        ({
            let best = v.best(query, filter, ancestor, limit);
            let found = v.found(query, filter, ancestor, limit);
            &&& found.len() == best.len()
            &&& found.len() <= limit
            &&& 0 <= i < best.len() ==> wanted(v, query, filter, ancestor, best[i].1) && found[i]
                == shown(v, best[i].1)
            &&& 0 <= i < j < best.len() ==> best[i].1 != best[j].1
            &&& wanted(v, query, filter, ancestor, id) && ascii::words(query).len() > 0
                && !found.contains(shown(v, id)) ==> found.len() == limit
            &&& ascii::words(query).len() == 0 ==> found.len() == 0
        }),
{
    broadcast use vstd::seq_lib::group_to_multiset_ensures;

    let terms = pattern::query_terms(query);
    let best = v.best(query, filter, ancestor, limit);
    let found = v.found(query, filter, ancestor, limit);
    law_limit_is_kept(v, query, filter, ancestor, limit);
    law_results_match(v, query, filter, ancestor, limit);
    if 0 <= i < best.len() {
        assert(v.matched(terms, filter, ancestor, best[i].1 as int));
    }
    if 0 <= i < j < best.len() {
        lemma_best_differ(v, query, filter, ancestor, limit, i, j);
    }
    if wanted(v, query, filter, ancestor, id) && terms.len() > 0 && !found.contains(shown(v, id)) {
        let all = v.all_candidates(terms, filter, ancestor);
        let x = (v.key_of(terms, id as int), id);
        assert(v.matched(terms, filter, ancestor, id as int));
        lemma_candidates_complete(v, terms, filter, ancestor, v.nodes.len() as int, id as int);
        let kept = rank::cut(all, cap_of(limit));
        rank::law_ranking_reorders(kept);
        if best.len() < limit {
            assert(cap_of(limit) >= limit);
            assert(kept == all);
            assert(all.to_multiset().count(x) > 0);
            assert(rank::ranking(kept).contains(x));
            let k = choose|k: int| 0 <= k < best.len() && best[k] == x;
            assert(found[k] == shown(v, id));
        }
    }
}

proof fn lemma_candidates_ascend(
    v: IndexView,
    terms: Seq<TermView>,
    filter: Category,
    ancestor: Option<u32>,
    end: int,
)
    requires
        v.valid(),
        end <= v.nodes.len(),
    ensures
        v.candidates(terms, filter, ancestor, end).no_duplicates(),
    decreases end,
{
    if end > 1 {
        lemma_candidates_ascend(v, terms, filter, ancestor, end - 1);
        lemma_candidates_in_range(v, terms, filter, ancestor, end - 1);
        let before = v.candidates(terms, filter, ancestor, end - 1);
        let c = v.candidates(terms, filter, ancestor, end);
        assert forall|a: int, b: int| 0 <= a < c.len() && 0 <= b < c.len() && a != b implies c[a]
            != c[b] by {
            if a < before.len() && b < before.len() {
                assert(before[a] != before[b]);
            } else if a < before.len() {
                assert(before[a].1 < end - 1);
            } else if b < before.len() {
                assert(before[b].1 < end - 1);
            }
        }
    }
}

proof fn lemma_best_differ(
    v: IndexView,
    query: Seq<u8>,
    filter: Category,
    ancestor: Option<u32>,
    limit: usize,
    i: int,
    j: int,
)
    requires
        v.valid(),
        0 <= i < j < v.best(query, filter, ancestor, limit).len(),
    ensures
        v.best(query, filter, ancestor, limit)[i].1 != v.best(query, filter, ancestor, limit)[j].1,
{
    let terms = pattern::query_terms(query);
    let best = v.best(query, filter, ancestor, limit);
    let all = v.all_candidates(terms, filter, ancestor);
    let kept = rank::cut(all, cap_of(limit));
    let ranked = rank::ranking(kept);
    lemma_candidates_ascend(v, terms, filter, ancestor, v.nodes.len() as int);
    rank::law_ranking_reorders(kept);
    assert(kept.no_duplicates());
    kept.lemma_multiset_has_no_duplicates();
    assert forall|x: HitView| ranked.to_multiset().contains(x) implies ranked.to_multiset().count(x)
        == 1 by {
        assert(kept.to_multiset().contains(x));
    }
    ranked.lemma_multiset_has_no_duplicates_conv();
    law_results_match(v, query, filter, ancestor, limit);
    assert(ranked[i] != ranked[j]);
    assert(best[i].0 == v.key_of(terms, best[i].1 as int));
    assert(best[j].0 == v.key_of(terms, best[j].1 as int));
}

/// Blanks before and behind a query change nothing.
pub proof fn law_outer_blanks_change_nothing(
    v: IndexView,
    query: Seq<u8>,
    filter: Category,
    ancestor: Option<u32>,
    limit: usize,
)
    ensures
        v.found(query + seq![32u8], filter, ancestor, limit) == v.found(
            query,
            filter,
            ancestor,
            limit,
        ),
        v.found(seq![32u8] + query, filter, ancestor, limit) == v.found(
            query,
            filter,
            ancestor,
            limit,
        ),
{
    let none = Seq::<u8>::empty();
    ascii::law_blanks_part_words(query, 32, none);
    ascii::law_blanks_part_words(none, 32, query);
    assert(query + seq![32u8] + none =~= query + seq![32u8]);
    assert(none + seq![32u8] + query =~= seq![32u8] + query);
    assert(ascii::words(query) + ascii::words(none) =~= ascii::words(query));
    assert(ascii::words(none) + ascii::words(query) =~= ascii::words(query));
    assert(pattern::query_terms(query + seq![32u8]) =~= pattern::query_terms(query));
    assert(pattern::query_terms(seq![32u8] + query) =~= pattern::query_terms(query));
}

/// At least two thousand candidates are collected, and twenty for each result
/// that was asked for, as far as a `usize` can tell.
pub proof fn law_candidates_outnumber_results(limit: usize)
    ensures
        cap_of(limit) >= 2000,
        cap_of(limit) >= limit,
        limit * 20 <= 2000 ==> cap_of(limit) == 2000,
        2000 <= limit * 20 <= usize::MAX ==> cap_of(limit) == limit * 20,
{
}

/// Where fewer entries are shown than were asked for, asking for more shows the
/// same, as far as the candidates are the same.
pub proof fn lemma_smaller_limit(
    v: IndexView,
    query: Seq<u8>,
    filter: Category,
    ancestor: Option<u32>,
    a: usize,
    b: usize,
)
    requires
        a <= b,
        v.found(query, filter, ancestor, a).len() < a,
    ensures
        v.found(query, filter, ancestor, a) == v.found(query, filter, ancestor, b),
{
    let terms = pattern::query_terms(query);
    let all = v.all_candidates(terms, filter, ancestor);
    if terms.len() > 0 {
        assert(cap_of(a) >= a);
        assert(cap_of(b) >= cap_of(a)) by (nonlinear_arith)
            requires
                a <= b,
        ;
        let kept = rank::cut(all, cap_of(a));
        rank::law_ranking_reorders(kept);
        assert(kept.len() < a);
        assert(kept == all);
        assert(rank::cut(all, cap_of(b)) == all);
        rank::law_ranking_reorders(all);
    }
}

} // verus!
