//! The library's guaranteed properties, stated and proved against the
//! specifications that the executable functions are verified to satisfy.

use vstd::prelude::*;
use crate::indexer::SCORE_ONE;
use crate::heatmap::{
    find_phrase_at, heat_add_entry_upto, heat_add_pos, heat_upto, lemma_find_phrase, HeatModel,
    PhraseHeatModel, spec_heatmap,
};
use crate::indexer::{EntryModel, PhraseEntry, Position};
use crate::query::Query;
use crate::ranking::{lemma_sort_upto_props, sort_of, total_preorder};
use crate::seeker::{
    cands_upto, lemma_cand_order_total, lemma_first_match, lemma_result_order_total, maxd_of,
    result_le, result_order, scan_upto, spec_search, spec_should_scores, Candidate, Index,
    ResultModel, ScanEnv,
};
use crate::utils::spec_trigramize;

verus! {

/// Law: every trigram of a frozen index carries a score strictly between
/// 0 and 1 (the fixed-point unit `SCORE_ONE`).
pub proof fn lemma_score_in_unit_range(ix: Index, t: Seq<char>)
    requires
        ix.wf(),
        ix.index.db_model().contains_key(t),
    ensures
        0 < ix.index.db_model()[t].score < SCORE_ONE,
{
}

/// Law: every position stored under a trigram `t` points at a stored
/// phrase, at a token of that phrase, and `t` is one of that token's
/// trigrams.
pub proof fn lemma_position_sound(ix: Index, t: Seq<char>, k: int)
    requires
        ix.wf(),
        ix.index.db_model().contains_key(t),
        0 <= k < ix.index.db_model()[t].positions.len(),
    ensures
        ({
            let pos = ix.index.db_model()[t].positions[k];
            &&& ix.index.phrases@.contains_key(pos.phrase_idx)
            &&& pos.token_idx < ix.index.phrases@[pos.phrase_idx].tokens@.len()
            &&& spec_trigramize(
                ix.index.phrases@[pos.phrase_idx].tokens@[pos.token_idx as int]@,
            ).contains(t)
        }),
{
    assert(crate::indexer::pos_ok(
        ix.index.phrases@,
        t,
        ix.index.db_model()[t].positions[k],
    ));
}

/// Every element of a stable sort comes from the sorted sequence.
proof fn lemma_sort_membership<T>(s: Seq<T>, leq: spec_fn(T, T) -> bool, i: int)
    requires
        total_preorder(leq),
        0 <= i < sort_of(s, leq).len(),
    ensures
        s.contains(sort_of(s, leq)[i]),
{
    broadcast use vstd::seq_lib::group_to_multiset_ensures;

    lemma_sort_upto_props(s, leq, s.len() as int);
    let r = sort_of(s, leq);
    assert(r.contains(r[i]));
    assert(r.to_multiset().count(r[i]) > 0);
    assert(s.take(s.len() as int) =~= s);
    assert(s.to_multiset().count(r[i]) > 0);
}

/// Every hit the scan accumulates is within the distance bound.
proof fn lemma_scan_distances(cands: Seq<Candidate>, env: ScanEnv, k: int, i: int)
    requires
        0 <= i < scan_upto(cands, env, k).results.len(),
    ensures
        scan_upto(cands, env, k).results[i].distance <= env.maxd,
    decreases k,
{
    if k > 0 {
        let st = scan_upto(cands, env, k - 1);
        let cand = cands[k - 1];
        if st.stopped {
            lemma_scan_distances(cands, env, k - 1, i);
        } else if st.best == 0 && crate::seeker::below_cutoff(cand.total, env.cutoff, env.heat.max) {
            lemma_scan_distances(cands, env, k - 1, i);
        } else {
            let hi = find_phrase_at(env.heat.phrases, cand.phrase_idx);
            let toks = env.phrases[cand.phrase_idx].tokens.deep_view();
            let sorted = sort_of(
                crate::seeker::token_cands_of(env.heat.phrases[hi].tokens, toks),
                crate::seeker::tok_order(),
            );
            let m = crate::seeker::first_match(sorted, toks, env.must, env.maxd);
            if m < 0 {
                lemma_scan_distances(cands, env, k - 1, i);
            } else if i < st.results.len() {
                lemma_scan_distances(cands, env, k - 1, i);
            } else {
                lemma_first_match(sorted, toks, env.must, env.maxd);
                assert(crate::utils::spec_distance(toks[sorted[m].token_idx as int], env.must)
                    <= env.maxd);
            }
        }
    }
}

/// Law: every returned hit is within the query's distance bound (absent
/// bound means unbounded).
pub proof fn lemma_results_within_max_distance(
    db: Map<Seq<char>, EntryModel>,
    phrases: Map<usize, PhraseEntry>,
    q: Query,
    i: int,
)
    requires
        0 <= i < spec_search(db, phrases, q).len(),
    ensures
        spec_search(db, phrases, q)[i].distance <= maxd_of(q),
{
    let heat = spec_heatmap(db, q.must@);
    let sh = spec_should_scores(db, phrases, heat.phrases, q.should.deep_view(), q.constraint);
    let cands = cands_upto(heat.phrases, phrases, sh, q.constraint, heat.phrases.len() as int);
    let sorted = sort_of(cands, crate::seeker::cand_order());
    let env = ScanEnv {
        phrases,
        heat,
        must: q.must@,
        maxd: maxd_of(q),
        limit: crate::seeker::limit_of(q),
        cutoff: q.scan_cutoff,
    };
    let st = scan_upto(sorted, env, sorted.len() as int);
    let ranked = sort_of(st.results, result_order());
    lemma_result_order_total();
    let r = spec_search(db, phrases, q);
    assert(r[i] == ranked[i]);
    lemma_sort_membership(st.results, result_order(), i);
    let w = choose|w: int| 0 <= w < st.results.len() && st.results[w] == ranked[i];
    lemma_scan_distances(sorted, env, sorted.len() as int, w);
}

/// Law: the returned hits are sorted by the final key: distance first,
/// then token score (descending), should-score (descending), origin length
/// and the origin itself.
pub proof fn lemma_results_ordered(
    db: Map<Seq<char>, EntryModel>,
    phrases: Map<usize, PhraseEntry>,
    q: Query,
    i: int,
    j: int,
)
    requires
        0 <= i < j < spec_search(db, phrases, q).len(),
    ensures
        result_le(spec_search(db, phrases, q)[i], spec_search(db, phrases, q)[j]),
{
    let heat = spec_heatmap(db, q.must@);
    let sh = spec_should_scores(db, phrases, heat.phrases, q.should.deep_view(), q.constraint);
    let cands = cands_upto(heat.phrases, phrases, sh, q.constraint, heat.phrases.len() as int);
    let sorted = sort_of(cands, crate::seeker::cand_order());
    let env = ScanEnv {
        phrases,
        heat,
        must: q.must@,
        maxd: maxd_of(q),
        limit: crate::seeker::limit_of(q),
        cutoff: q.scan_cutoff,
    };
    let st = scan_upto(sorted, env, sorted.len() as int);
    lemma_result_order_total();
    lemma_sort_upto_props(st.results, result_order(), st.results.len() as int);
    let ranked = sort_of(st.results, result_order());
    let r = spec_search(db, phrases, q);
    assert(r[i] == ranked[i] && r[j] == ranked[j]);
    assert((result_order())(ranked[i], ranked[j]));
}

/// Law: a search's outcome is a function of the frozen index and the query
/// alone; the cache state plays no part, so repeating a search on a stable
/// index returns the same list.
pub proof fn lemma_search_idempotent(ix1: Index, ix2: Index, q: Query)
    requires
        ix1.index == ix2.index,
    ensures
        spec_search(ix1.index.db_model(), ix1.index.phrases@, q) == spec_search(
            ix2.index.db_model(),
            ix2.index.phrases@,
            q,
        ),
{
}

/// Law: a query whose must token shares no trigram with the index comes
/// back empty, not as an error.
pub proof fn lemma_empty_heat_no_results(
    db: Map<Seq<char>, EntryModel>,
    phrases: Map<usize, PhraseEntry>,
    q: Query,
)
    requires
        spec_heatmap(db, q.must@).phrases.len() == 0,
    ensures
        spec_search(db, phrases, q).len() == 0,
{
    let heat = spec_heatmap(db, q.must@);
    let sh = spec_should_scores(db, phrases, heat.phrases, q.should.deep_view(), q.constraint);
    let cands = cands_upto(heat.phrases, phrases, sh, q.constraint, heat.phrases.len() as int);
    assert(cands =~= Seq::<Candidate>::empty());
    let sorted = sort_of(cands, crate::seeker::cand_order());
    assert(sorted =~= Seq::<Candidate>::empty());
    let env = ScanEnv {
        phrases,
        heat,
        must: q.must@,
        maxd: maxd_of(q),
        limit: crate::seeker::limit_of(q),
        cutoff: q.scan_cutoff,
    };
    let st = scan_upto(sorted, env, sorted.len() as int);
    assert(st.results =~= Seq::<ResultModel>::empty());
    assert(sort_of(st.results, result_order()) =~= Seq::<ResultModel>::empty());
}

proof fn lemma_heat_upto_empty_db(db: Map<Seq<char>, EntryModel>, tris: Seq<Seq<char>>, k: int)
    requires
        forall|t: Seq<char>| !db.contains_key(t),
    ensures
        heat_upto(db, tris, k).phrases.len() == 0,
    decreases k,
{
    if k > 0 {
        lemma_heat_upto_empty_db(db, tris, k - 1);
    }
}

/// Law: an empty index answers every query with the empty list.
pub proof fn lemma_empty_index_no_results(phrases: Map<usize, PhraseEntry>, q: Query)
    ensures
        spec_search(Map::empty(), phrases, q).len() == 0,
{
    let db = Map::<Seq<char>, EntryModel>::empty();
    lemma_heat_upto_empty_db(db, spec_trigramize(q.must@), spec_trigramize(q.must@).len() as int);
    lemma_empty_heat_no_results(db, phrases, q);
}

/// In a sequence counting an element twice, two positions hold it.
proof fn lemma_count_two_positions<T>(s: Seq<T>, x: T)
    requires
        s.to_multiset().count(x) >= 2,
    ensures
        exists|i: int, j: int| 0 <= i < j < s.len() && #[trigger] s[i] == x && #[trigger] s[j] == x,
{
    broadcast use vstd::seq_lib::group_to_multiset_ensures;

    assert(s.contains(x));
    let w1 = choose|w: int| 0 <= w < s.len() && s[w] == x;
    let s2 = s.remove(w1);
    assert(s2.to_multiset() =~= s.to_multiset().remove(x));
    assert(s2.to_multiset().count(x) >= 1);
    assert(s2.contains(x));
    let w2 = choose|w: int| 0 <= w < s2.len() && s2[w] == x;
    if w2 < w1 {
        assert(s[w2] == s2[w2]);
        assert(s[w2] == x && s[w1] == x);
    } else {
        assert(s[w2 + 1] == s2[w2]);
        assert(s[w1] == x && s[w2 + 1] == x);
    }
}

/// A stable sort keeps a field pairwise distinct if it was.
proof fn lemma_sort_distinct_by<T>(s: Seq<T>, leq: spec_fn(T, T) -> bool, f: spec_fn(T) -> usize)
    requires
        total_preorder(leq),
        forall|i: int, j: int| 0 <= i < j < s.len() ==> f(#[trigger] s[i]) != f(#[trigger] s[j]),
    ensures
        forall|i: int, j: int|
            0 <= i < j < sort_of(s, leq).len() ==> f(#[trigger] sort_of(s, leq)[i]) != f(
                #[trigger] sort_of(s, leq)[j],
            ),
{
    broadcast use vstd::seq_lib::group_to_multiset_ensures;

    lemma_sort_upto_props(s, leq, s.len() as int);
    assert(s.take(s.len() as int) =~= s);
    let r = sort_of(s, leq);
    assert forall|i: int, j: int| 0 <= i < j < r.len() implies f(#[trigger] r[i]) != f(
        #[trigger] r[j],
    ) by {
        let a = r[i];
        let b = r[j];
        if f(a) == f(b) {
            if a == b {
                let r2 = r.remove(i);
                assert(r2.to_multiset() =~= r.to_multiset().remove(a));
                assert(r2[j - 1] == r[j]);
                assert(r2.contains(b));
                assert(r2.to_multiset().count(b) >= 1);
                assert(r.to_multiset().count(a) >= 2);
                assert(s.to_multiset().count(a) >= 2);
                lemma_count_two_positions(s, a);
                let (w1, w2) = choose|w1: int, w2: int|
                    0 <= w1 < w2 < s.len() && #[trigger] s[w1] == a && #[trigger] s[w2] == a;
                assert(f(s[w1]) != f(s[w2]));
            } else {
                assert(r.contains(a) && r.contains(b));
                assert(s.to_multiset().count(a) > 0 && s.to_multiset().count(b) > 0);
                assert(s.contains(a) && s.contains(b));
                let w1 = choose|w: int| 0 <= w < s.len() && s[w] == a;
                let w2 = choose|w: int| 0 <= w < s.len() && s[w] == b;
                assert(w1 != w2);
                if w1 < w2 {
                    assert(f(s[w1]) != f(s[w2]));
                } else {
                    assert(f(s[w2]) != f(s[w1]));
                }
            }
        }
    }
}

/// No two heatmap entries name the same phrase.
pub open spec fn heat_unique(h: Seq<PhraseHeatModel>) -> bool {
    forall|i: int, j: int|
        0 <= i < j < h.len() ==> (#[trigger] h[i]).phrase_idx != (#[trigger] h[j]).phrase_idx
}

proof fn lemma_heat_add_pos_unique(h: HeatModel, pos: Position, sc: u32)
    requires
        heat_unique(h.phrases),
    ensures
        heat_unique(heat_add_pos(h, pos, sc).phrases),
{
    let i0 = find_phrase_at(h.phrases, pos.phrase_idx);
    lemma_find_phrase(h.phrases, pos.phrase_idx);
    let r = heat_add_pos(h, pos, sc).phrases;
    if i0 < 0 {
        assert forall|i: int, j: int|
            0 <= i < j < r.len() implies (#[trigger] r[i]).phrase_idx != (
        #[trigger] r[j]).phrase_idx by {
            if j == r.len() - 1 {
                assert(r[i] == h.phrases[i]);
                assert(h.phrases[i].phrase_idx != pos.phrase_idx);
            }
        }
    } else {
        assert forall|i: int, j: int|
            0 <= i < j < r.len() implies (#[trigger] r[i]).phrase_idx != (
        #[trigger] r[j]).phrase_idx by {
            assert(r[i].phrase_idx == h.phrases[i].phrase_idx);
            assert(r[j].phrase_idx == h.phrases[j].phrase_idx);
        }
    }
}

proof fn lemma_heat_entry_upto_unique(h: HeatModel, ps: Seq<Position>, sc: u32, j: int)
    requires
        heat_unique(h.phrases),
    ensures
        heat_unique(heat_add_entry_upto(h, ps, sc, j).phrases),
    decreases j,
{
    if j > 0 {
        lemma_heat_entry_upto_unique(h, ps, sc, j - 1);
        lemma_heat_add_pos_unique(heat_add_entry_upto(h, ps, sc, j - 1), ps[j - 1], sc);
    }
}

/// The heatmap never lists a phrase twice.
pub proof fn lemma_heat_upto_unique(db: Map<Seq<char>, EntryModel>, tris: Seq<Seq<char>>, k: int)
    ensures
        heat_unique(heat_upto(db, tris, k).phrases),
    decreases k,
{
    if k > 0 {
        lemma_heat_upto_unique(db, tris, k - 1);
        let t = tris[k - 1];
        if db.contains_key(t) {
            lemma_heat_entry_upto_unique(
                heat_upto(db, tris, k - 1),
                db[t].positions,
                db[t].score,
                db[t].positions.len() as int,
            );
        }
    }
}

/// No two candidates name the same phrase.
pub open spec fn cands_distinct(cs: Seq<Candidate>) -> bool {
    forall|i: int, j: int|
        0 <= i < j < cs.len() ==> (#[trigger] cs[i]).phrase_idx != (#[trigger] cs[j]).phrase_idx
}

proof fn lemma_cands_upto_distinct(
    heat: Seq<PhraseHeatModel>,
    phrases: Map<usize, PhraseEntry>,
    sh: Seq<crate::seeker::ShouldHeat>,
    constraint: Option<usize>,
    k: int,
)
    requires
        heat_unique(heat),
        k <= heat.len(),
    ensures
        cands_distinct(cands_upto(heat, phrases, sh, constraint, k)),
        forall|i: int|
            0 <= i < cands_upto(heat, phrases, sh, constraint, k).len() ==> exists|w: int|
                0 <= w < k && (#[trigger] cands_upto(heat, phrases, sh, constraint, k)[
                    i
                ]).phrase_idx == heat[w].phrase_idx,
    decreases k,
{
    if k > 0 {
        lemma_cands_upto_distinct(heat, phrases, sh, constraint, k - 1);
        let prev = cands_upto(heat, phrases, sh, constraint, k - 1);
        let cur = cands_upto(heat, phrases, sh, constraint, k);
        if crate::seeker::constraint_ok(phrases, heat[k - 1].phrase_idx, constraint) {
            assert forall|i: int, j: int|
                0 <= i < j < cur.len() implies (#[trigger] cur[i]).phrase_idx != (
            #[trigger] cur[j]).phrase_idx by {
                if j == cur.len() - 1 {
                    assert(cur[i] == prev[i]);
                    let w = choose|w: int|
                        0 <= w < k - 1 && (#[trigger] prev[i]).phrase_idx == heat[w].phrase_idx;
                    assert(heat[w].phrase_idx != heat[k - 1].phrase_idx);
                }
            }
            assert forall|i: int| 0 <= i < cur.len() implies exists|w: int|
                0 <= w < k && (#[trigger] cur[i]).phrase_idx == heat[w].phrase_idx by {
                if i < prev.len() {
                    let w = choose|w: int|
                        0 <= w < k - 1 && (#[trigger] prev[i]).phrase_idx == heat[w].phrase_idx;
                    assert(cur[i].phrase_idx == heat[w].phrase_idx);
                } else {
                    assert(cur[i].phrase_idx == heat[k - 1].phrase_idx);
                }
            }
        } else {
            assert forall|i: int| 0 <= i < cur.len() implies exists|w: int|
                0 <= w < k && (#[trigger] cur[i]).phrase_idx == heat[w].phrase_idx by {
                let w = choose|w: int|
                    0 <= w < k - 1 && (#[trigger] prev[i]).phrase_idx == heat[w].phrase_idx;
                assert(cur[i].phrase_idx == heat[w].phrase_idx);
            }
        }
    }
}

/// The scan emits at most one hit per candidate, each carrying its
/// candidate's phrase id.
proof fn lemma_scan_unique(cands: Seq<Candidate>, env: ScanEnv, k: int)
    requires
        cands_distinct(cands),
        k <= cands.len(),
    ensures
        forall|i: int, j: int|
            0 <= i < j < scan_upto(cands, env, k).results.len() ==> (#[trigger] scan_upto(
                cands,
                env,
                k,
            ).results[i]).index != (#[trigger] scan_upto(cands, env, k).results[j]).index,
        forall|i: int|
            0 <= i < scan_upto(cands, env, k).results.len() ==> exists|w: int|
                0 <= w < k && (#[trigger] scan_upto(cands, env, k).results[i]).index == cands[
                    w
                ].phrase_idx,
    decreases k,
{
    if k > 0 {
        lemma_scan_unique(cands, env, k - 1);
        let st = scan_upto(cands, env, k - 1);
        let st2 = scan_upto(cands, env, k);
        let cand = cands[k - 1];
        if st2.results == st.results {
            assert forall|i: int| 0 <= i < st2.results.len() implies exists|w: int|
                0 <= w < k && (#[trigger] st2.results[i]).index == cands[w].phrase_idx by {
                let w = choose|w: int|
                    0 <= w < k - 1 && (#[trigger] st.results[i]).index == cands[w].phrase_idx;
                assert(st2.results[i].index == cands[w].phrase_idx);
            }
        } else {
            assert(st2.results == st.results.push(st2.results.last()));
            assert(st2.results.last().index == cand.phrase_idx);
            assert forall|i: int, j: int|
                0 <= i < j < st2.results.len() implies (#[trigger] st2.results[i]).index != (
            #[trigger] st2.results[j]).index by {
                if j == st2.results.len() - 1 {
                    assert(st2.results[i] == st.results[i]);
                    let w = choose|w: int|
                        0 <= w < k - 1 && (#[trigger] st.results[i]).index == cands[w].phrase_idx;
                    assert(cands[w].phrase_idx != cands[k - 1].phrase_idx);
                }
            }
            assert forall|i: int| 0 <= i < st2.results.len() implies exists|w: int|
                0 <= w < k && (#[trigger] st2.results[i]).index == cands[w].phrase_idx by {
                if i < st.results.len() {
                    let w = choose|w: int|
                        0 <= w < k - 1 && (#[trigger] st.results[i]).index == cands[w].phrase_idx;
                    assert(st2.results[i].index == cands[w].phrase_idx);
                } else {
                    assert(st2.results[i].index == cands[k - 1].phrase_idx);
                }
            }
        }
    }
}

/// Law: each phrase appears at most once in the returned hits.
pub proof fn lemma_result_indices_unique(
    db: Map<Seq<char>, EntryModel>,
    phrases: Map<usize, PhraseEntry>,
    q: Query,
    i: int,
    j: int,
)
    requires
        0 <= i < j < spec_search(db, phrases, q).len(),
    ensures
        spec_search(db, phrases, q)[i].index != spec_search(db, phrases, q)[j].index,
{
    let heat = spec_heatmap(db, q.must@);
    let sh = spec_should_scores(db, phrases, heat.phrases, q.should.deep_view(), q.constraint);
    let cands = cands_upto(heat.phrases, phrases, sh, q.constraint, heat.phrases.len() as int);
    let sorted = sort_of(cands, crate::seeker::cand_order());
    let env = ScanEnv {
        phrases,
        heat,
        must: q.must@,
        maxd: maxd_of(q),
        limit: crate::seeker::limit_of(q),
        cutoff: q.scan_cutoff,
    };
    let st = scan_upto(sorted, env, sorted.len() as int);
    let ranked = sort_of(st.results, result_order());
    lemma_heat_upto_unique(db, spec_trigramize(q.must@), spec_trigramize(q.must@).len() as int);
    lemma_cands_upto_distinct(heat.phrases, phrases, sh, q.constraint, heat.phrases.len() as int);
    lemma_cand_order_total();
    lemma_sort_distinct_by(cands, crate::seeker::cand_order(), |c: Candidate| c.phrase_idx);
    assert(cands_distinct(sorted)) by {
        assert(forall|a: int, b: int|
            0 <= a < b < sorted.len() ==> (|c: Candidate| c.phrase_idx)(#[trigger] sorted[a]) != (
            |c: Candidate| c.phrase_idx)(#[trigger] sorted[b]));
    }
    lemma_scan_unique(sorted, env, sorted.len() as int);
    lemma_result_order_total();
    lemma_sort_distinct_by(st.results, result_order(), |r: ResultModel| r.index);
    let r = spec_search(db, phrases, q);
    assert(r[i] == ranked[i] && r[j] == ranked[j]);
    assert((|r2: ResultModel| r2.index)(ranked[i]) != (|r2: ResultModel| r2.index)(ranked[j]));
}

} // verus!
