//! The frozen, searchable index: heatmap construction (through the cache),
//! should-scores, and the ranked, filtered result scan.

use vstd::prelude::*;
use std::sync::Arc;
use crate::indexer::{
    db_ok, pos_ok, frozen_from, max_count, sum_counts, EntryModel, Indexer, PhraseEntry, Position,
    SCORE_ONE,
};
use crate::heatmap::{
    find_phrase_at, heat_add_entry_upto, heat_add_pos, heat_upto, sat_add, spec_heatmap,
    HeatModel, Heatmap, PhraseHeatModel, TokenHeat,
};
use crate::cache::{bump, HeatCache};
use crate::query::Query;
use crate::utils::{byte_len, distance, spec_distance, spec_trigramize, trigramize};
use crate::ranking::{
    lemma_insert_from_right_at, lemma_sort_upto_props, sort_of, sort_upto, total_preorder,
};

verus! {

/// One search hit.
#[derive(Debug)]
pub struct SearchResult {
    /// The matched phrase, exactly as it was added.
    pub origin: String,
    /// The phrase id given when the phrase was added.
    pub index: usize,
    /// The token of the phrase that matched the must token.
    pub token: String,
    /// Edit distance between that token and the must token.
    pub distance: usize,
    /// Trigram heat of the matching token.
    pub score: u64,
    /// Extra heat collected from the should tokens.
    pub should_score: u64,
}

/// Mathematical image of one search hit.
pub ghost struct ResultModel {
    pub origin: Seq<char>,
    pub index: usize,
    pub token: Seq<char>,
    pub distance: usize,
    pub score: u64,
    pub should_score: u64,
}

impl SearchResult {
    pub open spec fn model(self) -> ResultModel {
        ResultModel {
            origin: self.origin@,
            index: self.index,
            token: self.token@,
            distance: self.distance,
            score: self.score,
            should_score: self.should_score,
        }
    }
}

impl Clone for SearchResult {
    /// An exact copy of the hit.
    fn clone(&self) -> (r: Self)
        ensures
            r == *self,
    {
        SearchResult {
            origin: self.origin.clone(),
            index: self.index,
            token: self.token.clone(),
            distance: self.distance,
            score: self.score,
            should_score: self.should_score,
        }
    }
}

/// The images of a list of hits.
pub open spec fn results_model(s: Seq<SearchResult>) -> Seq<ResultModel> {
    Seq::new(s.len(), |i: int| s[i].model())
}

/// Counters of the heatmap cache; `size` is its current fill.
#[derive(Clone, Debug)]
pub struct CacheStats {
    pub hits: usize,
    pub misses: usize,
    pub inserts: usize,
    pub size: usize,
}

/// Should-score collected by one phrase.
#[derive(Clone, Copy, Debug)]
pub struct ShouldHeat {
    pub phrase_idx: usize,
    pub score: u64,
}

/// Index of the first should-score entry of phrase `p`, or -1.
pub open spec fn find_should_at(s: Seq<ShouldHeat>, p: usize) -> int
    decreases s.len(),
{
    if s.len() == 0 {
        -1
    } else if s[0].phrase_idx == p {
        0
    } else {
        let r = find_should_at(s.drop_first(), p);
        if r < 0 {
            -1
        } else {
            1 + r
        }
    }
}

pub proof fn lemma_find_should(s: Seq<ShouldHeat>, p: usize)
    ensures
        find_should_at(s, p) >= 0 ==> 0 <= find_should_at(s, p) < s.len() && s[find_should_at(
            s,
            p,
        )].phrase_idx == p && (forall|k: int| 0 <= k < find_should_at(s, p) ==> s[k].phrase_idx != p),
        find_should_at(s, p) < 0 ==> (forall|k: int| 0 <= k < s.len() ==> s[k].phrase_idx != p),
    decreases s.len(),
{
    if s.len() > 0 && s[0].phrase_idx != p {
        lemma_find_should(s.drop_first(), p);
        let r = find_should_at(s.drop_first(), p);
        if r >= 0 {
            assert forall|k: int| 0 <= k < 1 + r implies s[k].phrase_idx != p by {
                if k > 0 {
                    assert(s.drop_first()[k - 1].phrase_idx != p);
                }
            }
        } else {
            assert forall|k: int| 0 <= k < s.len() implies s[k].phrase_idx != p by {
                if k > 0 {
                    assert(s.drop_first()[k - 1].phrase_idx != p);
                }
            }
        }
    }
}

/// The should-score a phrase has collected so far (0 if none).
pub open spec fn should_of(s: Seq<ShouldHeat>, p: usize) -> u64 {
    let j = find_should_at(s, p);
    if j < 0 {
        0u64
    } else {
        s[j].score
    }
}

/// Add `sc` to the should-score of phrase `p`.
pub open spec fn bump_should(s: Seq<ShouldHeat>, p: usize, sc: u32) -> Seq<ShouldHeat> {
    let j = find_should_at(s, p);
    if j < 0 {
        s.push(ShouldHeat { phrase_idx: p, score: sc as u64 })
    } else {
        s.update(j, ShouldHeat { phrase_idx: p, score: sat_add(s[j].score, sc as u64) })
    }
}

/// Whether a phrase passes the constraint filter.
pub open spec fn constraint_ok(
    phrases: Map<usize, PhraseEntry>,
    pid: usize,
    constraint: Option<usize>,
) -> bool {
    match constraint {
        Some(c) => phrases[pid].constraints@.contains(c),
        None => true,
    }
}

/// One position contributes its trigram's score to the phrase's
/// should-score, if the phrase passes the constraint and is in the heatmap.
pub open spec fn should_add_pos(
    s: Seq<ShouldHeat>,
    phrases: Map<usize, PhraseEntry>,
    heat: Seq<PhraseHeatModel>,
    constraint: Option<usize>,
    pos: Position,
    sc: u32,
) -> Seq<ShouldHeat> {
    if constraint_ok(phrases, pos.phrase_idx, constraint) && find_phrase_at(heat, pos.phrase_idx)
        >= 0 {
        bump_should(s, pos.phrase_idx, sc)
    } else {
        s
    }
}

/// Should-scores after the first `j` positions of one trigram record.
pub open spec fn should_positions_upto(
    s: Seq<ShouldHeat>,
    ps: Seq<Position>,
    sc: u32,
    phrases: Map<usize, PhraseEntry>,
    heat: Seq<PhraseHeatModel>,
    constraint: Option<usize>,
    j: int,
) -> Seq<ShouldHeat>
    decreases j,
{
    if j <= 0 {
        s
    } else {
        should_add_pos(
            should_positions_upto(s, ps, sc, phrases, heat, constraint, j - 1),
            phrases,
            heat,
            constraint,
            ps[j - 1],
            sc,
        )
    }
}

/// Should-scores after the first `k` trigrams of one should token.
pub open spec fn should_tris_upto(
    s: Seq<ShouldHeat>,
    db: Map<Seq<char>, EntryModel>,
    tris: Seq<Seq<char>>,
    phrases: Map<usize, PhraseEntry>,
    heat: Seq<PhraseHeatModel>,
    constraint: Option<usize>,
    k: int,
) -> Seq<ShouldHeat>
    decreases k,
{
    if k <= 0 {
        s
    } else {
        let prev = should_tris_upto(s, db, tris, phrases, heat, constraint, k - 1);
        let t = tris[k - 1];
        if db.contains_key(t) {
            should_positions_upto(
                prev,
                db[t].positions,
                db[t].score,
                phrases,
                heat,
                constraint,
                db[t].positions.len() as int,
            )
        } else {
            prev
        }
    }
}

/// Only the first four trigrams of a should token count.
pub open spec fn should_tris(token: Seq<char>) -> Seq<Seq<char>> {
    let t = spec_trigramize(token);
    if t.len() > 4 {
        t.take(4)
    } else {
        t
    }
}

/// Should-scores after the first `k` should tokens.
pub open spec fn should_tokens_upto(
    s: Seq<ShouldHeat>,
    db: Map<Seq<char>, EntryModel>,
    shoulds: Seq<Seq<char>>,
    phrases: Map<usize, PhraseEntry>,
    heat: Seq<PhraseHeatModel>,
    constraint: Option<usize>,
    k: int,
) -> Seq<ShouldHeat>
    decreases k,
{
    if k <= 0 {
        s
    } else {
        let prev = should_tokens_upto(s, db, shoulds, phrases, heat, constraint, k - 1);
        let tris = should_tris(shoulds[k - 1]);
        should_tris_upto(prev, db, tris, phrases, heat, constraint, tris.len() as int)
    }
}

/// The should-scores of a query: each should token's first four trigrams
/// add their score to every constrained phrase of the heatmap they occur in.
pub open spec fn spec_should_scores(
    db: Map<Seq<char>, EntryModel>,
    phrases: Map<usize, PhraseEntry>,
    heat: Seq<PhraseHeatModel>,
    shoulds: Seq<Seq<char>>,
    constraint: Option<usize>,
) -> Seq<ShouldHeat> {
    should_tokens_upto(
        Seq::empty(),
        db,
        shoulds,
        phrases,
        heat,
        constraint,
        shoulds.len() as int,
    )
}

/// A candidate phrase of the scan: its heat, should-score and origin
/// length.
#[derive(Clone, Copy, Debug)]
pub struct Candidate {
    pub phrase_idx: usize,
    pub total: u64,
    pub should: u64,
    pub origin_len: usize,
}

/// Candidate order: descending combined score, then ascending origin
/// length; ties keep heatmap order.
pub open spec fn cand_le(a: Candidate, b: Candidate) -> bool {
    let ca = a.total + a.should;
    let cb = b.total + b.should;
    ca > cb || (ca == cb && a.origin_len <= b.origin_len)
}

pub open spec fn cand_order() -> spec_fn(Candidate, Candidate) -> bool {
    |a: Candidate, b: Candidate| cand_le(a, b)
}

pub proof fn lemma_cand_order_total()
    ensures
        total_preorder(cand_order()),
{
}

/// The candidates drawn from the first `k` heatmap phrases, in heatmap
/// order, dropping the ones that fail the constraint.
pub open spec fn cands_upto(
    heat: Seq<PhraseHeatModel>,
    phrases: Map<usize, PhraseEntry>,
    sh: Seq<ShouldHeat>,
    constraint: Option<usize>,
    k: int,
) -> Seq<Candidate>
    decreases k,
{
    if k <= 0 {
        Seq::empty()
    } else {
        let prev = cands_upto(heat, phrases, sh, constraint, k - 1);
        let ph = heat[k - 1];
        if constraint_ok(phrases, ph.phrase_idx, constraint) {
            prev.push(
                Candidate {
                    phrase_idx: ph.phrase_idx,
                    total: ph.total,
                    should: should_of(sh, ph.phrase_idx),
                    origin_len: byte_len(phrases[ph.phrase_idx].origin@) as usize,
                },
            )
        } else {
            prev
        }
    }
}

/// A token of a candidate phrase, as ranked inside the phrase.
#[derive(Clone, Copy, Debug)]
pub struct TokenCand {
    pub token_idx: usize,
    pub score: u64,
    pub len: usize,
}

/// Token order inside a phrase: descending heat, then ascending length.
pub open spec fn tok_le(a: TokenCand, b: TokenCand) -> bool {
    a.score > b.score || (a.score == b.score && a.len <= b.len)
}

pub open spec fn tok_order() -> spec_fn(TokenCand, TokenCand) -> bool {
    |a: TokenCand, b: TokenCand| tok_le(a, b)
}

pub proof fn lemma_tok_order_total()
    ensures
        total_preorder(tok_order()),
{
}

/// The ranked tokens of one heatmap phrase.
pub open spec fn token_cands_of(th: Seq<TokenHeat>, tokens: Seq<Seq<char>>) -> Seq<TokenCand> {
    Seq::new(
        th.len(),
        |j: int|
            TokenCand {
                token_idx: th[j].token_idx,
                score: th[j].score,
                len: byte_len(tokens[th[j].token_idx as int]) as usize,
            },
    )
}

/// The first ranked token within `maxd` of the must token, or -1.
pub open spec fn first_match(
    s: Seq<TokenCand>,
    tokens: Seq<Seq<char>>,
    must: Seq<char>,
    maxd: usize,
) -> int
    decreases s.len(),
{
    if s.len() == 0 {
        -1
    } else if spec_distance(tokens[s[0].token_idx as int], must) <= maxd {
        0
    } else {
        let r = first_match(s.drop_first(), tokens, must, maxd);
        if r < 0 {
            -1
        } else {
            1 + r
        }
    }
}

pub proof fn lemma_first_match(s: Seq<TokenCand>, tokens: Seq<Seq<char>>, must: Seq<char>, maxd: usize)
    ensures
        first_match(s, tokens, must, maxd) >= 0 ==> {
            let f = first_match(s, tokens, must, maxd);
            &&& 0 <= f < s.len()
            &&& spec_distance(tokens[s[f].token_idx as int], must) <= maxd
            &&& forall|k: int|
                0 <= k < f ==> spec_distance(tokens[(#[trigger] s[k]).token_idx as int], must)
                    > maxd
        },
        first_match(s, tokens, must, maxd) < 0 ==> forall|k: int|
            0 <= k < s.len() ==> spec_distance(tokens[(#[trigger] s[k]).token_idx as int], must)
                > maxd,
    decreases s.len(),
{
    if s.len() > 0 && !(spec_distance(tokens[s[0].token_idx as int], must) <= maxd) {
        lemma_first_match(s.drop_first(), tokens, must, maxd);
        let r = first_match(s.drop_first(), tokens, must, maxd);
        if r >= 0 {
            assert forall|k: int|
                0 <= k < 1 + r implies spec_distance(
                tokens[(#[trigger] s[k]).token_idx as int],
                must,
            ) > maxd by {
                if k > 0 {
                    assert(s.drop_first()[k - 1] == s[k]);
                    assert(spec_distance(
                        tokens[s.drop_first()[k - 1].token_idx as int],
                        must,
                    ) > maxd);
                }
            }
        } else {
            assert forall|k: int|
                0 <= k < s.len() implies spec_distance(
                tokens[(#[trigger] s[k]).token_idx as int],
                must,
            ) > maxd by {
                if k > 0 {
                    assert(s.drop_first()[k - 1] == s[k]);
                    assert(spec_distance(
                        tokens[s.drop_first()[k - 1].token_idx as int],
                        must,
                    ) > maxd);
                }
            }
        }
    }
}

/// Byte-wise lexicographic order.
pub open spec fn lex_le(a: Seq<u8>, b: Seq<u8>) -> bool
    decreases a.len(),
{
    if a.len() == 0 {
        true
    } else if b.len() == 0 {
        false
    } else if a[0] < b[0] {
        true
    } else if a[0] > b[0] {
        false
    } else {
        lex_le(a.drop_first(), b.drop_first())
    }
}

pub proof fn lemma_lex_le_total(a: Seq<u8>, b: Seq<u8>)
    ensures
        lex_le(a, b) || lex_le(b, a),
    decreases a.len(),
{
    if a.len() > 0 && b.len() > 0 && a[0] == b[0] {
        lemma_lex_le_total(a.drop_first(), b.drop_first());
    }
}

pub proof fn lemma_lex_le_trans(a: Seq<u8>, b: Seq<u8>, c: Seq<u8>)
    requires
        lex_le(a, b),
        lex_le(b, c),
    ensures
        lex_le(a, c),
    decreases a.len(),
{
    if a.len() > 0 && b.len() > 0 && c.len() > 0 && a[0] == b[0] && b[0] == c[0] {
        lemma_lex_le_trans(a.drop_first(), b.drop_first(), c.drop_first());
    }
}

/// Final result order: ascending distance, then descending token score,
/// then descending should-score, then ascending origin byte length, then
/// the origin bytes themselves.
pub open spec fn result_le(a: ResultModel, b: ResultModel) -> bool {
    if a.distance != b.distance {
        a.distance < b.distance
    } else if a.score != b.score {
        a.score > b.score
    } else if a.should_score != b.should_score {
        a.should_score > b.should_score
    } else if byte_len(a.origin) != byte_len(b.origin) {
        byte_len(a.origin) < byte_len(b.origin)
    } else {
        lex_le(vstd::utf8::encode_utf8(a.origin), vstd::utf8::encode_utf8(b.origin))
    }
}

pub open spec fn result_order() -> spec_fn(ResultModel, ResultModel) -> bool {
    |a: ResultModel, b: ResultModel| result_le(a, b)
}

pub proof fn lemma_result_order_total()
    ensures
        total_preorder(result_order()),
{
    assert forall|a: ResultModel, b: ResultModel| #[trigger]
        result_le(a, b) || #[trigger] result_le(b, a) by {
        lemma_lex_le_total(vstd::utf8::encode_utf8(a.origin), vstd::utf8::encode_utf8(b.origin));
    }
    assert forall|a: ResultModel, b: ResultModel, c: ResultModel|
        result_le(a, b) && result_le(b, c) implies result_le(a, c) by {
        lemma_lex_le_total(vstd::utf8::encode_utf8(a.origin), vstd::utf8::encode_utf8(b.origin));
        lemma_lex_le_total(vstd::utf8::encode_utf8(b.origin), vstd::utf8::encode_utf8(c.origin));
        if result_le(a, b) && result_le(b, c) && a.distance == b.distance && b.distance
            == c.distance && a.score == b.score && b.score == c.score && a.should_score
            == b.should_score && b.should_score == c.should_score && byte_len(a.origin) == byte_len(
            b.origin,
        ) && byte_len(b.origin) == byte_len(c.origin) {
            lemma_lex_le_trans(
                vstd::utf8::encode_utf8(a.origin),
                vstd::utf8::encode_utf8(b.origin),
                vstd::utf8::encode_utf8(c.origin),
            );
        }
    }
}

/// Fixed data of one scan.
pub ghost struct ScanEnv {
    pub phrases: Map<usize, PhraseEntry>,
    pub heat: HeatModel,
    pub must: Seq<char>,
    pub maxd: usize,
    pub limit: usize,
    pub cutoff: u32,
}

/// Scan state: the hits so far, the best distance so far (`usize::MAX`
/// until a hit lands), and whether the scan has stopped early.
pub ghost struct ScanState {
    pub results: Seq<ResultModel>,
    pub best: usize,
    pub stopped: bool,
}

/// Whether a phrase's total heat falls below the cutoff fraction of the
/// heatmap's best total.
pub open spec fn below_cutoff(total: u64, cutoff: u32, maxsc: u64) -> bool {
    (total as int) * (crate::query::CUTOFF_UNIT as int) < (cutoff as int) * (maxsc as int)
}

/// One step of the ranked scan over the sorted candidates.
pub open spec fn scan_step(st: ScanState, cand: Candidate, env: ScanEnv) -> ScanState {
    if st.stopped {
        st
    } else if st.best == 0 && below_cutoff(cand.total, env.cutoff, env.heat.max) {
        ScanState { results: st.results, best: st.best, stopped: true }
    } else {
        let hi = find_phrase_at(env.heat.phrases, cand.phrase_idx);
        let toks = env.phrases[cand.phrase_idx].tokens.deep_view();
        let sorted = sort_of(token_cands_of(env.heat.phrases[hi].tokens, toks), tok_order());
        let m = first_match(sorted, toks, env.must, env.maxd);
        if m < 0 {
            st
        } else {
            let ti = sorted[m].token_idx;
            let d = spec_distance(toks[ti as int], env.must) as usize;
            let rm = ResultModel {
                origin: env.phrases[cand.phrase_idx].origin@,
                index: cand.phrase_idx,
                token: toks[ti as int],
                distance: d,
                score: sorted[m].score,
                should_score: cand.should,
            };
            let best2 = if d < st.best {
                d
            } else {
                st.best
            };
            let res2 = st.results.push(rm);
            ScanState {
                results: res2,
                best: best2,
                stopped: best2 == 0 && res2.len() >= env.limit,
            }
        }
    }
}

/// The scan state after the first `k` sorted candidates.
pub open spec fn scan_upto(cands: Seq<Candidate>, env: ScanEnv, k: int) -> ScanState
    decreases k,
{
    if k <= 0 {
        ScanState { results: Seq::empty(), best: usize::MAX, stopped: false }
    } else {
        scan_step(scan_upto(cands, env, k - 1), cands[k - 1], env)
    }
}

/// Once stopped, the scan stays put.
pub proof fn lemma_scan_stopped(cands: Seq<Candidate>, env: ScanEnv, k1: int, k2: int)
    requires
        0 <= k1 <= k2,
        scan_upto(cands, env, k1).stopped,
    ensures
        scan_upto(cands, env, k2) == scan_upto(cands, env, k1),
    decreases k2 - k1,
{
    if k2 > k1 {
        lemma_scan_stopped(cands, env, k1, k2 - 1);
    }
}

/// The provisional hits of a query against a heatmap and its should-scores,
/// ranked and cut to the limit.
pub open spec fn spec_filtered(
    phrases: Map<usize, PhraseEntry>,
    heat: HeatModel,
    sh: Seq<ShouldHeat>,
    must: Seq<char>,
    constraint: Option<usize>,
    maxd: usize,
    limit: usize,
    cutoff: u32,
) -> Seq<ResultModel> {
    let cands = cands_upto(heat.phrases, phrases, sh, constraint, heat.phrases.len() as int);
    let sorted = sort_of(cands, cand_order());
    let env = ScanEnv { phrases, heat, must, maxd, limit, cutoff };
    let st = scan_upto(sorted, env, sorted.len() as int);
    let ranked = sort_of(st.results, result_order());
    if limit < ranked.len() {
        ranked.take(limit as int)
    } else {
        ranked
    }
}

/// The largest accepted distance of a query; absent means unbounded.
pub open spec fn maxd_of(q: Query) -> usize {
    match q.max_distance {
        Some(d) => d,
        None => usize::MAX,
    }
}

/// The result cap of a query; absent means unbounded.
pub open spec fn limit_of(q: Query) -> usize {
    match q.limit {
        Some(l) => l,
        None => usize::MAX,
    }
}

/// What a search returns: the ranked, filtered scan of the must token's
/// heatmap, with should-scores from the should tokens.
pub open spec fn spec_search(
    db: Map<Seq<char>, EntryModel>,
    phrases: Map<usize, PhraseEntry>,
    q: Query,
) -> Seq<ResultModel> {
    let heat = spec_heatmap(db, q.must@);
    let sh = spec_should_scores(db, phrases, heat.phrases, q.should.deep_view(), q.constraint);
    spec_filtered(
        phrases,
        heat,
        sh,
        q.must@,
        q.constraint,
        maxd_of(q),
        limit_of(q),
        q.scan_cutoff,
    )
}

/// Every heatmap phrase is a stored phrase and every heated token index is
/// a token of it.
pub open spec fn heat_sound(h: Seq<PhraseHeatModel>, phrases: Map<usize, PhraseEntry>) -> bool {
    forall|i: int|
        0 <= i < h.len() ==> {
            &&& phrases.contains_key((#[trigger] h[i]).phrase_idx)
            &&& forall|j: int|
                0 <= j < h[i].tokens.len() ==> (#[trigger] h[i].tokens[j]).token_idx < phrases[h[
                    i
                ].phrase_idx].tokens@.len()
        }
}

proof fn lemma_heat_add_pos_sound(
    h: HeatModel,
    pos: Position,
    sc: u32,
    phrases: Map<usize, PhraseEntry>,
)
    requires
        heat_sound(h.phrases, phrases),
        phrases.contains_key(pos.phrase_idx),
        pos.token_idx < phrases[pos.phrase_idx].tokens@.len(),
    ensures
        heat_sound(heat_add_pos(h, pos, sc).phrases, phrases),
{
    let r = heat_add_pos(h, pos, sc).phrases;
    let i0 = find_phrase_at(h.phrases, pos.phrase_idx);
    crate::heatmap::lemma_find_phrase(h.phrases, pos.phrase_idx);
    if i0 < 0 {
        assert forall|i: int| 0 <= i < r.len() implies phrases.contains_key(
            (#[trigger] r[i]).phrase_idx,
        ) && (forall|j: int|
            0 <= j < r[i].tokens.len() ==> (#[trigger] r[i].tokens[j]).token_idx < phrases[r[
                i
            ].phrase_idx].tokens@.len()) by {
            if i < h.phrases.len() {
                assert(r[i] == h.phrases[i]);
            } else {
                assert(r[i].tokens =~= seq![
                    TokenHeat { token_idx: pos.token_idx, score: sc as u64 },
                ]);
            }
        }
    } else {
        let old_toks = h.phrases[i0].tokens;
        let new_toks = crate::heatmap::bump_token(old_toks, pos.token_idx, sc);
        assert forall|j: int|
            0 <= j < new_toks.len() implies (#[trigger] new_toks[j]).token_idx < phrases[
            pos.phrase_idx
        ].tokens@.len() by {
            crate::heatmap::lemma_find_token(old_toks, pos.token_idx);
            let jt = crate::heatmap::find_token_at(old_toks, pos.token_idx);
            if jt < 0 {
                if j < old_toks.len() {
                    assert(new_toks[j] == old_toks[j]);
                }
            } else {
                if j != jt {
                    assert(new_toks[j] == old_toks[j]);
                }
            }
        }
        assert forall|i: int| 0 <= i < r.len() implies phrases.contains_key(
            (#[trigger] r[i]).phrase_idx,
        ) && (forall|j: int|
            0 <= j < r[i].tokens.len() ==> (#[trigger] r[i].tokens[j]).token_idx < phrases[r[
                i
            ].phrase_idx].tokens@.len()) by {
            if i != i0 {
                assert(r[i] == h.phrases[i]);
            }
        }
    }
}

proof fn lemma_heat_entry_upto_sound(
    h: HeatModel,
    ps: Seq<Position>,
    sc: u32,
    j: int,
    phrases: Map<usize, PhraseEntry>,
)
    requires
        heat_sound(h.phrases, phrases),
        j <= ps.len(),
        forall|x: int|
            0 <= x < j ==> phrases.contains_key((#[trigger] ps[x]).phrase_idx) && ps[x].token_idx
                < phrases[ps[x].phrase_idx].tokens@.len(),
    ensures
        heat_sound(heat_add_entry_upto(h, ps, sc, j).phrases, phrases),
    decreases j,
{
    if j > 0 {
        lemma_heat_entry_upto_sound(h, ps, sc, j - 1, phrases);
        lemma_heat_add_pos_sound(heat_add_entry_upto(h, ps, sc, j - 1), ps[j - 1], sc, phrases);
    }
}

pub proof fn lemma_heat_upto_sound(
    db: Map<Seq<char>, EntryModel>,
    tris: Seq<Seq<char>>,
    k: int,
    phrases: Map<usize, PhraseEntry>,
)
    requires
        db_ok(db, phrases),
    ensures
        heat_sound(heat_upto(db, tris, k).phrases, phrases),
    decreases k,
{
    if k > 0 {
        lemma_heat_upto_sound(db, tris, k - 1, phrases);
        let t = tris[k - 1];
        if db.contains_key(t) {
            assert forall|x: int|
                0 <= x < db[t].positions.len() implies phrases.contains_key(
                (#[trigger] db[t].positions[x]).phrase_idx,
            ) && db[t].positions[x].token_idx < phrases[db[t].positions[x].phrase_idx].tokens@.len()
                by {
                assert(pos_ok(phrases, t, db[t].positions[x]));
            }
            lemma_heat_entry_upto_sound(
                heat_upto(db, tris, k - 1),
                db[t].positions,
                db[t].score,
                db[t].positions.len() as int,
                phrases,
            );
        }
    }
}

/// Every candidate names a stored phrase that the heatmap knows.
pub open spec fn cands_ok(
    cs: Seq<Candidate>,
    phrases: Map<usize, PhraseEntry>,
    heat: Seq<PhraseHeatModel>,
) -> bool {
    forall|i: int|
        0 <= i < cs.len() ==> phrases.contains_key((#[trigger] cs[i]).phrase_idx)
            && find_phrase_at(heat, cs[i].phrase_idx) >= 0
}

/// Whether a constraint id is among a phrase's constraints.
fn contains_id(v: &Vec<usize>, c: usize) -> (r: bool)
    ensures
        r == v@.contains(c),
{
    let n = v.len();
    let mut i: usize = 0;
    while i < n
        invariant
            0 <= i <= n,
            n == v@.len(),
            forall|m: int| 0 <= m < i ==> v@[m] != c,
        decreases n - i,
    {
        if v[i] == c {
            proof {
                assert(v@[i as int] == c);
            }
            return true;
        }
        i = i + 1;
    }
    proof {
        if v@.contains(c) {
            let w = choose|w: int| 0 <= w < v@.len() && v@[w] == c;
            assert(v@[w] != c);
        }
    }
    false
}

/// Find a phrase's should-score entry.
fn find_should(v: &Vec<ShouldHeat>, pid: usize) -> (r: Option<usize>)
    ensures
        match r {
            Some(i) => i < v@.len() && find_should_at(v@, pid) == i && v@[i as int].phrase_idx
                == pid,
            None => find_should_at(v@, pid) < 0,
        },
{
    let n = v.len();
    let mut i: usize = 0;
    while i < n
        invariant
            0 <= i <= n,
            n == v@.len(),
            forall|m: int| 0 <= m < i ==> v@[m].phrase_idx != pid,
        decreases n - i,
    {
        if v[i].phrase_idx == pid {
            proof {
                lemma_find_should(v@, pid);
                let f = find_should_at(v@, pid);
                if f < 0 {
                    assert(false);
                }
                if f < i {
                    assert(v@[f].phrase_idx != pid);
                    assert(false);
                }
                if f > i {
                    assert(v@[i as int].phrase_idx != pid);
                    assert(false);
                }
            }
            return Some(i);
        }
        i = i + 1;
    }
    proof {
        lemma_find_should(v@, pid);
        let f = find_should_at(v@, pid);
        if f >= 0 {
            assert(v@[f].phrase_idx != pid);
        }
    }
    None
}

/// The should-score a phrase collected (0 if none).
fn should_value(v: &Vec<ShouldHeat>, pid: usize) -> (r: u64)
    ensures
        r == should_of(v@, pid),
{
    match find_should(v, pid) {
        Some(i) => v[i].score,
        None => 0,
    }
}

/// Candidate order, executably.
fn cand_leq(a: &Candidate, b: &Candidate) -> (r: bool)
    ensures
        r == cand_le(*a, *b),
{
    let ca: u128 = a.total as u128 + a.should as u128;
    let cb: u128 = b.total as u128 + b.should as u128;
    ca > cb || (ca == cb && a.origin_len <= b.origin_len)
}

/// Token order, executably.
fn tok_leq(a: &TokenCand, b: &TokenCand) -> (r: bool)
    ensures
        r == tok_le(*a, *b),
{
    a.score > b.score || (a.score == b.score && a.len <= b.len)
}

/// Byte-wise lexicographic order, executably.
fn lex_leq(a: &Vec<u8>, b: &Vec<u8>) -> (r: bool)
    ensures
        r == lex_le(a@, b@),
{
    let na = a.len();
    let nb = b.len();
    let mut i: usize = 0;
    proof {
        assert(a@.skip(0) =~= a@);
        assert(b@.skip(0) =~= b@);
    }
    while i < na && i < nb
        invariant
            0 <= i <= na,
            0 <= i <= nb,
            na == a@.len(),
            nb == b@.len(),
            lex_le(a@, b@) == lex_le(a@.skip(i as int), b@.skip(i as int)),
        decreases na - i,
    {
        let ca = a[i];
        let cb = b[i];
        proof {
            assert(a@.skip(i as int)[0] == a@[i as int]);
            assert(b@.skip(i as int)[0] == b@[i as int]);
            assert(a@.skip(i as int).drop_first() =~= a@.skip(i + 1));
            assert(b@.skip(i as int).drop_first() =~= b@.skip(i + 1));
        }
        if ca < cb {
            return true;
        }
        if ca > cb {
            return false;
        }
        i = i + 1;
    }
    proof {
        if i == na {
            assert(a@.skip(i as int).len() == 0);
        } else {
            assert(b@.skip(i as int).len() == 0);
            assert(a@.skip(i as int).len() > 0);
        }
    }
    i == na
}

/// Final result order, executably.
fn result_leq(a: &SearchResult, b: &SearchResult) -> (r: bool)
    ensures
        r == result_le(a.model(), b.model()),
{
    if a.distance != b.distance {
        a.distance < b.distance
    } else if a.score != b.score {
        a.score > b.score
    } else if a.should_score != b.should_score {
        a.should_score > b.should_score
    } else {
        let la = a.origin.as_str().as_bytes().len();
        let lb = b.origin.as_str().as_bytes().len();
        if la != lb {
            la < lb
        } else {
            let av = a.origin.as_str().as_bytes_vec();
            let bv = b.origin.as_str().as_bytes_vec();
            lex_leq(&av, &bv)
        }
    }
}

/// Sort the candidates stably by their order.
fn sorted_candidates(v: &Vec<Candidate>) -> (r: Vec<Candidate>)
    ensures
        r@ == sort_of(v@, cand_order()),
{
    let n = v.len();
    let mut out: Vec<Candidate> = Vec::new();
    proof {
        assert(out@ =~= sort_upto(v@, cand_order(), 0));
    }
    let mut k: usize = 0;
    while k < n
        invariant
            0 <= k <= n,
            n == v@.len(),
            out@ == sort_upto(v@, cand_order(), k as int),
        decreases n - k,
    {
        let x = v[k];
        let mut j: usize = out.len();
        while j > 0 && !cand_leq(&out[j - 1], &x)
            invariant
                0 <= j <= out@.len(),
                forall|m: int| j <= m < out@.len() ==> !cand_le(#[trigger] out@[m], x),
            decreases j,
        {
            j = j - 1;
        }
        proof {
            assert(forall|m: int|
                j <= m < out@.len() ==> !(cand_order())(#[trigger] out@[m], x));
            if j > 0 {
                assert((cand_order())(out@[j - 1], x));
            }
            lemma_insert_from_right_at(out@, x, cand_order(), j as int);
        }
        out.insert(j, x);
        k = k + 1;
    }
    out
}

/// Sort a phrase's tokens stably by their order.
fn sorted_tokens(v: &Vec<TokenCand>) -> (r: Vec<TokenCand>)
    ensures
        r@ == sort_of(v@, tok_order()),
{
    let n = v.len();
    let mut out: Vec<TokenCand> = Vec::new();
    proof {
        assert(out@ =~= sort_upto(v@, tok_order(), 0));
    }
    let mut k: usize = 0;
    while k < n
        invariant
            0 <= k <= n,
            n == v@.len(),
            out@ == sort_upto(v@, tok_order(), k as int),
        decreases n - k,
    {
        let x = v[k];
        let mut j: usize = out.len();
        while j > 0 && !tok_leq(&out[j - 1], &x)
            invariant
                0 <= j <= out@.len(),
                forall|m: int| j <= m < out@.len() ==> !tok_le(#[trigger] out@[m], x),
            decreases j,
        {
            j = j - 1;
        }
        proof {
            assert(forall|m: int| j <= m < out@.len() ==> !(tok_order())(#[trigger] out@[m], x));
            if j > 0 {
                assert((tok_order())(out@[j - 1], x));
            }
            lemma_insert_from_right_at(out@, x, tok_order(), j as int);
        }
        out.insert(j, x);
        k = k + 1;
    }
    out
}

/// Sort the results stably by the final order.
fn sorted_results(v: &Vec<SearchResult>) -> (r: Vec<SearchResult>)
    ensures
        results_model(r@) == sort_of(results_model(v@), result_order()),
{
    let ghost vm = results_model(v@);
    let n = v.len();
    let mut out: Vec<SearchResult> = Vec::new();
    proof {
        assert(results_model(out@) =~= sort_upto(vm, result_order(), 0));
    }
    let mut k: usize = 0;
    while k < n
        invariant
            0 <= k <= n,
            n == v@.len(),
            vm == results_model(v@),
            results_model(out@) == sort_upto(vm, result_order(), k as int),
        decreases n - k,
    {
        let x = v[k].clone();
        proof {
            assert(x.model() == vm[k as int]);
        }
        let mut j: usize = out.len();
        while j > 0 && !result_leq(&out[j - 1], &x)
            invariant
                0 <= j <= out@.len(),
                forall|m: int|
                    j <= m < out@.len() ==> !result_le((#[trigger] out@[m]).model(), x.model()),
            decreases j,
        {
            j = j - 1;
        }
        proof {
            let om = results_model(out@);
            assert(forall|m: int|
                j <= m < om.len() ==> !(result_order())(#[trigger] om[m], x.model()));
            if j > 0 {
                assert((result_order())(om[j - 1], x.model()));
            }
            lemma_insert_from_right_at(om, x.model(), result_order(), j as int);
        }
        let ghost out0 = out@;
        out.insert(j, x);
        proof {
            assert(results_model(out@) =~= results_model(out0).insert(
                j as int,
                out@[j as int].model(),
            ));
        }
        k = k + 1;
    }
    out
}

/// Walk the ranked tokens of one phrase and return the first within
/// `maxd` of the must token, with its distance.
fn select_token(stcs: &Vec<TokenCand>, tokens: &Vec<String>, must: &str, maxd: usize) -> (r: Option<
    (usize, usize),
>)
    requires
        forall|m: int| 0 <= m < stcs@.len() ==> (#[trigger] stcs@[m]).token_idx < tokens@.len(),
    ensures
        match r {
            Some(md) => {
                &&& 0 <= md.0 < stcs@.len()
                &&& first_match(stcs@, tokens.deep_view(), must@, maxd) == md.0 as int
                &&& md.1 == spec_distance(
                    tokens.deep_view()[stcs@[md.0 as int].token_idx as int],
                    must@,
                )
                &&& md.1 <= maxd
            },
            None => first_match(stcs@, tokens.deep_view(), must@, maxd) < 0,
        },
{
    let ghost toks = tokens.deep_view();
    let n = stcs.len();
    let mut m: usize = 0;
    while m < n
        invariant
            0 <= m <= n,
            n == stcs@.len(),
            toks == tokens.deep_view(),
            forall|m2: int| 0 <= m2 < stcs@.len() ==> (#[trigger] stcs@[m2]).token_idx < tokens@.len(),
            forall|m2: int|
                0 <= m2 < m ==> spec_distance(toks[(#[trigger] stcs@[m2]).token_idx as int], must@)
                    > maxd,
        decreases n - m,
    {
        let ti = stcs[m].token_idx;
        proof {
            assert(tokens.deep_view()[ti as int] == tokens@[ti as int]@);
        }
        let d = distance(tokens[ti].as_str(), must);
        if d <= maxd {
            proof {
                lemma_first_match(stcs@, toks, must@, maxd);
                let f = first_match(stcs@, toks, must@, maxd);
                if f < 0 {
                    assert(spec_distance(toks[stcs@[m as int].token_idx as int], must@) > maxd);
                }
                if 0 <= f < m {
                    assert(spec_distance(toks[stcs@[f].token_idx as int], must@) > maxd);
                    assert(spec_distance(toks[stcs@[f].token_idx as int], must@) <= maxd);
                }
                if f > m {
                    assert(spec_distance(toks[stcs@[m as int].token_idx as int], must@) > maxd);
                }
            }
            return Some((m, d));
        }
        m = m + 1;
    }
    proof {
        lemma_first_match(stcs@, toks, must@, maxd);
        let f = first_match(stcs@, toks, must@, maxd);
        if f >= 0 {
            assert(spec_distance(toks[stcs@[f].token_idx as int], must@) > maxd);
        }
    }
    None
}

/// The frozen index: the phrase table and scored inverted index, plus the
/// heatmap cache.
pub struct Index {
    /// The frozen build-phase structures.
    pub index: Indexer,
    /// The LRU heatmap cache with its counters.
    pub cache: HeatCache,
}

impl Index {
    /// A frozen index is a well-formed indexer whose scores are strictly
    /// between 0 and 1, and a cache that only ever holds the heatmap a must
    /// token would freshly compute.
    pub open spec fn wf(self) -> bool {
        &&& self.index.wf()
        &&& forall|t: Seq<char>|
            self.index.db_model().contains_key(t) ==> 0 < (
            #[trigger] self.index.db_model()[t]).score < SCORE_ONE
        &&& forall|k: Seq<char>|
            self.cache.entries().contains_key(k) ==> (#[trigger] self.cache.entries()[k]).model()
                == spec_heatmap(self.index.db_model(), k)
    }

    /// Wrap a frozen indexer with a fresh cache of the given capacity.
    pub fn new(indexer: Indexer, cache_size: usize) -> (r: Index)
        requires
            indexer.wf(),
            cache_size >= 1,
            forall|t: Seq<char>|
                indexer.db_model().contains_key(t) ==> 0 < (
                #[trigger] indexer.db_model()[t]).score < SCORE_ONE,
        ensures
            r.wf(),
            r.index == indexer,
            r.cache.hits == 0 && r.cache.misses == 0 && r.cache.inserts == 0,
            r.cache.entries() == Map::<Seq<char>, Heatmap>::empty(),
    {
        Index { index: indexer, cache: HeatCache::new(cache_size) }
    }

    /// Number of distinct trigrams in the frozen index.
    pub fn trigram_count(&self) -> (r: usize)
        ensures
            r == self.index.db.recs@.len(),
    {
        self.index.db.recs.len()
    }

    /// Whether a trigram occurs in the frozen index.
    pub fn has_trigram(&self, tri: &str) -> (r: bool)
        requires
            self.wf(),
        ensures
            r == self.index.db_model().contains_key(tri@),
    {
        let key = tri.to_owned();
        match self.index.db.find(&key) {
            Some(_) => true,
            None => false,
        }
    }

    /// Fetch or compute the heatmap of a must token: on a cache hit the
    /// shared handle is returned as is; on a miss the heatmap is computed
    /// from the inverted index and published to the cache.
    pub fn create_heatmap(&mut self, token: &str) -> (r: Arc<Heatmap>)
        requires
            old(self).wf(),
        ensures
            final(self).wf(),
            final(self).index == old(self).index,
            (*r).model() == spec_heatmap(old(self).index.db_model(), token@),
            old(self).cache.entries().contains_key(token@) ==> {
                &&& final(self).cache.entries() == old(self).cache.entries()
                &&& final(self).cache.hits == bump(old(self).cache.hits)
                &&& final(self).cache.misses == old(self).cache.misses
                &&& final(self).cache.inserts == old(self).cache.inserts
            },
            !old(self).cache.entries().contains_key(token@) ==> {
                &&& final(self).cache.entries().contains_key(token@)
                &&& final(self).cache.hits == old(self).cache.hits
                &&& final(self).cache.misses == bump(old(self).cache.misses)
                &&& final(self).cache.inserts == bump(old(self).cache.inserts)
            },
    {
        let got = self.cache.get(token);
        match got {
            Some(h) => {
                proof {
                    assert((*h).model() == spec_heatmap(old(self).index.db_model(), token@));
                }
                h
            },
            None => {
                let tris = trigramize(token);
                let ghost tseq = spec_trigramize(token@);
                let ghost dbm = self.index.db_model();
                let ghost cacheg = self.cache;
                let mut hm = Heatmap::new();
                proof {
                    assert(hm.model() == heat_upto(dbm, tseq, 0));
                }
                let ntr = tris.len();
                let mut k: usize = 0;
                while k < ntr
                    invariant
                        0 <= k <= ntr,
                        ntr == tris@.len(),
                        tris.deep_view() == tseq,
                        tseq == spec_trigramize(token@),
                        self.index == old(self).index,
                        self.cache == cacheg,
                        old(self).wf(),
                        dbm == self.index.db_model(),
                        hm.model() == heat_upto(dbm, tseq, k as int),
                    decreases ntr - k,
                {
                    proof {
                        assert(tris.deep_view()[k as int] == tris@[k as int]@);
                    }
                    let found = self.index.db.find(&tris[k]);
                    match found {
                        Some(i) => {
                            proof {
                                self.index.db.lemma_at(i as int);
                            }
                            let sc = self.index.db.recs[i].score;
                            let np = self.index.db.recs[i].positions.len();
                            let ghost entry_ps = self.index.db.recs@[i as int].positions@;
                            let ghost base = heat_upto(dbm, tseq, k as int);
                            let mut j: usize = 0;
                            while j < np
                                invariant
                                    0 <= j <= np,
                                    self.index == old(self).index,
                                    self.cache == cacheg,
                                    i < self.index.db.recs@.len(),
                                    entry_ps == self.index.db.recs@[i as int].positions@,
                                    np == entry_ps.len(),
                                    sc == self.index.db.recs@[i as int].score,
                                    hm.model() == heat_add_entry_upto(base, entry_ps, sc, j as int),
                                decreases np - j,
                            {
                                let pos = self.index.db.recs[i].positions[j];
                                hm.add_phrase(pos.phrase_idx, pos.token_idx, sc);
                                j = j + 1;
                            }
                            proof {
                                assert(dbm.contains_key(tseq[k as int]));
                                assert(dbm[tseq[k as int]] == (EntryModel {
                                    positions: entry_ps,
                                    score: sc,
                                }));
                                assert(hm.model() == heat_upto(dbm, tseq, k + 1));
                            }
                        },
                        None => {
                            proof {
                                assert(!dbm.contains_key(tseq[k as int]));
                                assert(hm.model() == heat_upto(dbm, tseq, k + 1));
                            }
                        },
                    }
                    k = k + 1;
                }
                proof {
                    assert(tseq.len() == ntr);
                    assert(hm.model() == spec_heatmap(dbm, token@));
                }
                let arc = Arc::new(hm);
                let r2 = arc.clone();
                self.cache.put(token.to_owned(), arc);
                proof {
                    let olde = cacheg.entries();
                    let newe = self.cache.entries();
                    assert forall|kk: Seq<char>| newe.contains_key(kk) implies (
                    #[trigger] newe[kk]).model() == spec_heatmap(self.index.db_model(), kk) by {
                        assert(newe.submap_of(olde.insert(token@, newe[token@])));
                        if kk == token@ {
                        } else {
                            assert(olde.insert(token@, newe[token@]).contains_key(kk));
                            assert(olde.contains_key(kk));
                            assert(newe[kk] == olde[kk]);
                        }
                    }
                }
                r2
            },
        }
    }

    /// Compute the should-scores of the query's should tokens against a
    /// heatmap: for each token, its first four trigrams add their score to
    /// every heatmap phrase they occur in that passes the constraint.
    fn should_scores(&self, hm: &Heatmap, shoulds: &Vec<String>, constraint: Option<usize>) -> (r:
        Vec<ShouldHeat>)
        requires
            self.index.wf(),
        ensures
            r@ == spec_should_scores(
                self.index.db_model(),
                self.index.phrases@,
                hm.model().phrases,
                shoulds.deep_view(),
                constraint,
            ),
    {
        let ghost dbm = self.index.db_model();
        let ghost phs = self.index.phrases@;
        let ghost heatph = hm.model().phrases;
        let ghost shv = shoulds.deep_view();
        let mut out: Vec<ShouldHeat> = Vec::new();
        let ns = shoulds.len();
        proof {
            assert(shv.len() == ns);
            assert(out@ =~= Seq::<ShouldHeat>::empty());
        }
        let mut k: usize = 0;
        while k < ns
            invariant
                0 <= k <= ns,
                ns == shoulds@.len(),
                shoulds.deep_view() == shv,
                dbm == self.index.db_model(),
                phs == self.index.phrases@,
                heatph == hm.model().phrases,
                self.index.wf(),
                out@ == should_tokens_upto(
                    Seq::<ShouldHeat>::empty(),
                    dbm,
                    shv,
                    phs,
                    heatph,
                    constraint,
                    k as int,
                ),
            decreases ns - k,
        {
            proof {
                assert(shoulds.deep_view()[k as int] == shoulds@[k as int]@);
            }
            let mut tris = trigramize(shoulds[k].as_str());
            let ghost full = spec_trigramize(shv[k as int]);
            tris.truncate(4);
            let ghost trisv = should_tris(shv[k as int]);
            proof {
                assert(tris.deep_view() =~= trisv) by {
                    assert(forall|x: int|
                        0 <= x < tris@.len() ==> tris.deep_view()[x] == tris@[x]@);
                }
            }
            let ghost s_tok = out@;
            let ntr = tris.len();
            let mut x: usize = 0;
            while x < ntr
                invariant
                    0 <= x <= ntr,
                    ntr == tris@.len(),
                    tris.deep_view() == trisv,
                    dbm == self.index.db_model(),
                    phs == self.index.phrases@,
                    heatph == hm.model().phrases,
                    self.index.wf(),
                    out@ == should_tris_upto(s_tok, dbm, trisv, phs, heatph, constraint, x as int),
                decreases ntr - x,
            {
                proof {
                    assert(tris.deep_view()[x as int] == tris@[x as int]@);
                }
                let found = self.index.db.find(&tris[x]);
                match found {
                    Some(i) => {
                        proof {
                            self.index.db.lemma_at(i as int);
                        }
                        let sc = self.index.db.recs[i].score;
                        let np = self.index.db.recs[i].positions.len();
                        let ghost entry_ps = self.index.db.recs@[i as int].positions@;
                        let ghost s_tri = out@;
                        let ghost t = trisv[x as int];
                        let mut j: usize = 0;
                        while j < np
                            invariant
                                0 <= j <= np,
                                dbm == self.index.db_model(),
                                phs == self.index.phrases@,
                                heatph == hm.model().phrases,
                                self.index.wf(),
                                i < self.index.db.recs@.len(),
                                entry_ps == self.index.db.recs@[i as int].positions@,
                                np == entry_ps.len(),
                                sc == self.index.db.recs@[i as int].score,
                                dbm.contains_key(t),
                                dbm[t] == (EntryModel { positions: entry_ps, score: sc }),
                                out@ == should_positions_upto(
                                    s_tri,
                                    entry_ps,
                                    sc,
                                    phs,
                                    heatph,
                                    constraint,
                                    j as int,
                                ),
                            decreases np - j,
                        {
                            let pos = self.index.db.recs[i].positions[j];
                            proof {
                                assert(pos_ok(phs, t, entry_ps[j as int]));
                            }
                            let pass: bool = match constraint {
                                Some(c) => {
                                    let pe = match self.index.phrases.get(&pos.phrase_idx) {
                                        Some(pe) => pe,
                                        None => {
                                            proof {
                                                assert(false);
                                            }
                                            vstd::pervasive::unreached()
                                        },
                                    };
                                    contains_id(&pe.constraints, c)
                                },
                                None => true,
                            };
                            let in_heat = hm.has_phrase(pos.phrase_idx);
                            if pass && in_heat {
                                let ghost s_pos = out@;
                                let si = find_should(&out, pos.phrase_idx);
                                match si {
                                    Some(si) => {
                                        let e = &mut out[si];
                                        e.score = e.score.saturating_add(sc as u64);
                                    },
                                    None => {
                                        out.push(
                                            ShouldHeat {
                                                phrase_idx: pos.phrase_idx,
                                                score: sc as u64,
                                            },
                                        );
                                    },
                                }
                                proof {
                                    assert(out@ =~= bump_should(s_pos, pos.phrase_idx, sc));
                                    assert(constraint_ok(phs, pos.phrase_idx, constraint));
                                    assert(out@ == should_add_pos(
                                        s_pos,
                                        phs,
                                        heatph,
                                        constraint,
                                        entry_ps[j as int],
                                        sc,
                                    ));
                                }
                            } else {
                                proof {
                                    assert(out@ == should_add_pos(
                                        out@,
                                        phs,
                                        heatph,
                                        constraint,
                                        entry_ps[j as int],
                                        sc,
                                    ));
                                }
                            }
                            j = j + 1;
                        }
                        proof {
                            assert(out@ == should_tris_upto(
                                s_tok,
                                dbm,
                                trisv,
                                phs,
                                heatph,
                                constraint,
                                x + 1,
                            ));
                        }
                    },
                    None => {
                        proof {
                            assert(!dbm.contains_key(trisv[x as int]));
                            assert(out@ == should_tris_upto(
                                s_tok,
                                dbm,
                                trisv,
                                phs,
                                heatph,
                                constraint,
                                x + 1,
                            ));
                        }
                    },
                }
                x = x + 1;
            }
            proof {
                assert(trisv.len() == ntr);
                assert(out@ == should_tokens_upto(
                    Seq::<ShouldHeat>::empty(),
                    dbm,
                    shv,
                    phs,
                    heatph,
                    constraint,
                    k + 1,
                ));
            }
            k = k + 1;
        }
        proof {
            assert(out@ == spec_should_scores(dbm, phs, heatph, shv, constraint));
        }
        out
    }

    /// Rank the heatmap's phrases, walk them in order with the cutoff and
    /// limit breaks, pick each phrase's best matching token, and return the
    /// hits in the final order, cut to the limit.
    fn filtered_results(&self, query: &Query, hm: &Heatmap, sh: &Vec<ShouldHeat>) -> (r: Vec<
        SearchResult,
    >)
        requires
            self.index.wf(),
            heat_sound(hm.model().phrases, self.index.phrases@),
        ensures
            results_model(r@) == spec_filtered(
                self.index.phrases@,
                hm.model(),
                sh@,
                query.must@,
                query.constraint,
                maxd_of(*query),
                limit_of(*query),
                query.scan_cutoff,
            ),
    {
        let ghost phs = self.index.phrases@;
        let ghost heat = hm.model();
        let constraint = query.constraint;
        // gather the candidates in heatmap order, applying the constraint
        let mut cands: Vec<Candidate> = Vec::new();
        let nh = hm.phrases.len();
        proof {
            assert(heat.phrases.len() == nh);
            assert(cands@ =~= cands_upto(heat.phrases, phs, sh@, constraint, 0));
        }
        let mut i: usize = 0;
        while i < nh
            invariant
                0 <= i <= nh,
                nh == hm.phrases@.len(),
                phs == self.index.phrases@,
                heat == hm.model(),
                self.index.wf(),
                heat_sound(heat.phrases, phs),
                constraint == query.constraint,
                cands@ == cands_upto(heat.phrases, phs, sh@, constraint, i as int),
                cands_ok(cands@, phs, heat.phrases),
            decreases nh - i,
        {
            let pid = hm.phrases[i].phrase_idx;
            proof {
                assert(heat.phrases[i as int] == hm.phrases@[i as int].model());
                assert(phs.contains_key(pid));
            }
            let pe = match self.index.phrases.get(&pid) {
                Some(pe) => pe,
                None => {
                    proof {
                        assert(false);
                    }
                    vstd::pervasive::unreached()
                },
            };
            let pass: bool = match constraint {
                Some(c) => contains_id(&pe.constraints, c),
                None => true,
            };
            if pass {
                let sv = should_value(sh, pid);
                let ol = pe.origin.as_str().as_bytes().len();
                let ghost c0 = cands@;
                cands.push(
                    Candidate {
                        phrase_idx: pid,
                        total: hm.phrases[i].total_score,
                        should: sv,
                        origin_len: ol,
                    },
                );
                proof {
                    assert(ol == byte_len(phs[pid].origin@) as usize);
                    assert(cands@ =~= cands_upto(heat.phrases, phs, sh@, constraint, i + 1));
                    crate::heatmap::lemma_find_phrase(heat.phrases, pid);
                    if find_phrase_at(heat.phrases, pid) < 0 {
                        assert(heat.phrases[i as int].phrase_idx != pid);
                    }
                    assert(cands_ok(cands@, phs, heat.phrases));
                }
            } else {
                proof {
                    assert(cands@ =~= cands_upto(heat.phrases, phs, sh@, constraint, i + 1));
                }
            }
            i = i + 1;
        }
        // rank them by combined score
        let scands = sorted_candidates(&cands);
        proof {
            lemma_cand_order_total();
            lemma_sort_upto_props(cands@, cand_order(), cands@.len() as int);
            broadcast use vstd::seq_lib::group_to_multiset_ensures;

            assert(cands@.take(cands@.len() as int) =~= cands@);
            assert forall|m: int| 0 <= m < scands@.len() implies phs.contains_key(
                (#[trigger] scands@[m]).phrase_idx,
            ) && find_phrase_at(heat.phrases, scands@[m].phrase_idx) >= 0 by {
                let e = scands@[m];
                assert(scands@.contains(e));
                assert(scands@.to_multiset().count(e) > 0);
                assert(cands@.to_multiset().count(e) > 0);
                assert(cands@.contains(e));
                let w = choose|w: int| 0 <= w < cands@.len() && cands@[w] == e;
                assert(phs.contains_key(cands@[w].phrase_idx));
            }
        }
        // scan in rank order
        let maxd: usize = match query.max_distance {
            Some(d) => d,
            None => usize::MAX,
        };
        let limit: usize = match query.limit {
            Some(l) => l,
            None => usize::MAX,
        };
        let ghost env = ScanEnv {
            phrases: phs,
            heat,
            must: query.must@,
            maxd,
            limit,
            cutoff: query.scan_cutoff,
        };
        let ncs = scands.len();
        let mut results: Vec<SearchResult> = Vec::new();
        let mut best: usize = usize::MAX;
        proof {
            assert(results_model(results@) =~= Seq::<ResultModel>::empty());
        }
        let mut k: usize = 0;
        while k < ncs
            invariant_except_break
                scan_upto(scands@, env, k as int) == (ScanState {
                    results: results_model(results@),
                    best: best,
                    stopped: false,
                }),
            invariant
                0 <= k <= ncs,
                ncs == scands@.len(),
                phs == self.index.phrases@,
                heat == hm.model(),
                self.index.wf(),
                heat_sound(heat.phrases, phs),
                env == (ScanEnv {
                    phrases: phs,
                    heat,
                    must: query.must@,
                    maxd,
                    limit,
                    cutoff: query.scan_cutoff,
                }),
                forall|m: int|
                    0 <= m < scands@.len() ==> phs.contains_key(
                        (#[trigger] scands@[m]).phrase_idx,
                    ) && find_phrase_at(heat.phrases, scands@[m].phrase_idx) >= 0,
            ensures
                results_model(results@) == scan_upto(scands@, env, ncs as int).results,
            decreases ncs - k,
        {
            let cand = scands[k];
            let ghost st = scan_upto(scands@, env, k as int);
            if best == 0 {
                let below: bool;
                {
                    proof {
                        assert((cand.total as int) * (crate::query::CUTOFF_UNIT as int) < (
                        u128::MAX as int)) by (nonlinear_arith)
                            requires
                                0 <= cand.total as int <= u64::MAX as int,
                        ;
                        assert((query.scan_cutoff as int) * (hm.max_score as int) < (
                        u128::MAX as int)) by (nonlinear_arith)
                            requires
                                0 <= query.scan_cutoff as int <= u32::MAX as int,
                                0 <= hm.max_score as int <= u64::MAX as int,
                        ;
                    }
                    let lhs: u128 = (cand.total as u128) * (crate::query::CUTOFF_UNIT as u128);
                    let rhs: u128 = (query.scan_cutoff as u128) * (hm.max_score as u128);
                    below = lhs < rhs;
                }
                if below {
                    proof {
                        assert(below_cutoff(cand.total, env.cutoff, env.heat.max));
                        assert(scan_upto(scands@, env, k + 1) == (ScanState {
                            results: st.results,
                            best: st.best,
                            stopped: true,
                        }));
                        lemma_scan_stopped(scands@, env, k + 1, ncs as int);
                    }
                    break;
                }
            }
            proof {
                assert(!(st.best == 0 && below_cutoff(cand.total, env.cutoff, env.heat.max)));
            }
            let hi = match hm.find_phrase(cand.phrase_idx) {
                Some(hi) => hi,
                None => {
                    proof {
                        assert(find_phrase_at(heat.phrases, scands@[k as int].phrase_idx) >= 0);
                        assert(false);
                    }
                    vstd::pervasive::unreached()
                },
            };
            let pe = match self.index.phrases.get(&cand.phrase_idx) {
                Some(pe) => pe,
                None => {
                    proof {
                        assert(phs.contains_key(scands@[k as int].phrase_idx));
                        assert(false);
                    }
                    vstd::pervasive::unreached()
                },
            };
            let ghost toks = pe.tokens.deep_view();
            // rank this phrase's heated tokens
            let nth = hm.phrases[hi].tokens.len();
            let mut tcs: Vec<TokenCand> = Vec::new();
            proof {
                assert(heat.phrases[hi as int] == hm.phrases@[hi as int].model());
                assert(heat.phrases[hi as int].tokens == hm.phrases@[hi as int].tokens@);
                assert(tcs@ =~= token_cands_of(heat.phrases[hi as int].tokens, toks).take(0));
            }
            let mut j: usize = 0;
            while j < nth
                invariant
                    0 <= j <= nth,
                    hi < hm.phrases@.len(),
                    nth == hm.phrases@[hi as int].tokens@.len(),
                    heat == hm.model(),
                    phs == self.index.phrases@,
                    heat_sound(heat.phrases, phs),
                    heat.phrases[hi as int].tokens == hm.phrases@[hi as int].tokens@,
                    *pe == phs[heat.phrases[hi as int].phrase_idx],
                    toks == pe.tokens.deep_view(),
                    tcs@ == token_cands_of(heat.phrases[hi as int].tokens, toks).take(j as int),
                decreases nth - j,
            {
                let th = hm.phrases[hi].tokens[j];
                proof {
                    assert(heat.phrases[hi as int].tokens[j as int] == th);
                    assert(th.token_idx < phs[heat.phrases[hi as int].phrase_idx].tokens@.len());
                    assert(pe.tokens.deep_view()[th.token_idx as int]
                        == pe.tokens@[th.token_idx as int]@);
                }
                let tlen = pe.tokens[th.token_idx].as_str().as_bytes().len();
                tcs.push(TokenCand { token_idx: th.token_idx, score: th.score, len: tlen });
                proof {
                    let full = token_cands_of(heat.phrases[hi as int].tokens, toks);
                    assert(tlen == byte_len(toks[th.token_idx as int]) as usize);
                    assert(tcs@ =~= full.take(j + 1));
                }
                j = j + 1;
            }
            proof {
                assert(tcs@ =~= token_cands_of(heat.phrases[hi as int].tokens, toks));
            }
            let stcs = sorted_tokens(&tcs);
            proof {
                lemma_tok_order_total();
                lemma_sort_upto_props(tcs@, tok_order(), tcs@.len() as int);
                broadcast use vstd::seq_lib::group_to_multiset_ensures;

                assert(tcs@.take(tcs@.len() as int) =~= tcs@);
                assert forall|m: int| 0 <= m < stcs@.len() implies (
                #[trigger] stcs@[m]).token_idx < pe.tokens@.len() by {
                    let e = stcs@[m];
                    assert(stcs@.contains(e));
                    assert(stcs@.to_multiset().count(e) > 0);
                    assert(tcs@.to_multiset().count(e) > 0);
                    assert(tcs@.contains(e));
                    let w = choose|w: int| 0 <= w < tcs@.len() && tcs@[w] == e;
                    assert(tcs@[w].token_idx
                        == heat.phrases[hi as int].tokens[w].token_idx);
                }
            }
            let sel = select_token(&stcs, &pe.tokens, query.must.as_str(), maxd);
            match sel {
                None => {
                    proof {
                        assert(find_phrase_at(env.heat.phrases, cand.phrase_idx) == hi as int) by {
                            crate::heatmap::lemma_find_phrase(heat.phrases, cand.phrase_idx);
                        }
                        assert(scan_upto(scands@, env, k + 1) == st);
                    }
                },
                Some(md) => {
                    let m = md.0;
                    let d = md.1;
                    let ti = stcs[m].token_idx;
                    let ghost r0 = results_model(results@);
                    results.push(
                        SearchResult {
                            origin: pe.origin.clone(),
                            index: cand.phrase_idx,
                            token: pe.tokens[ti].clone(),
                            distance: d,
                            score: stcs[m].score,
                            should_score: cand.should,
                        },
                    );
                    if d < best {
                        best = d;
                    }
                    proof {
                        assert(find_phrase_at(env.heat.phrases, cand.phrase_idx) == hi as int) by {
                            crate::heatmap::lemma_find_phrase(heat.phrases, cand.phrase_idx);
                        }
                        assert(pe.tokens.deep_view()[ti as int] == pe.tokens@[ti as int]@);
                        assert(results_model(results@) =~= r0.push(
                            results@[results@.len() - 1].model(),
                        ));
                        assert(scan_upto(scands@, env, k + 1) == (ScanState {
                            results: results_model(results@),
                            best: best,
                            stopped: best == 0 && results_model(results@).len() >= limit,
                        }));
                    }
                    if best == 0 && results.len() >= limit {
                        proof {
                            lemma_scan_stopped(scands@, env, k + 1, ncs as int);
                        }
                        break;
                    }
                    proof {
                        assert(!(best == 0 && results_model(results@).len() >= limit));
                    }
                },
            }
            k = k + 1;
        }
        // final order, then the cap
        let mut fin = sorted_results(&results);
        let ghost ranked = sort_of(results_model(results@), result_order());
        fin.truncate(limit);
        proof {
            let full = spec_filtered(
                phs,
                heat,
                sh@,
                query.must@,
                query.constraint,
                maxd_of(*query),
                limit_of(*query),
                query.scan_cutoff,
            );
            if limit < ranked.len() {
                assert(results_model(fin@) =~= ranked.take(limit as int));
            } else {
                assert(results_model(fin@) =~= ranked);
            }
            assert(results_model(fin@) =~= full);
        }
        fin
    }

    /// Run a query: build (or fetch) the must token's heatmap, collect the
    /// should-scores, and rank and filter the candidates.
    pub fn search(&mut self, query: &Query) -> (r: Vec<SearchResult>)
        requires
            old(self).wf(),
        ensures
            final(self).wf(),
            final(self).index == old(self).index,
            results_model(r@) == spec_search(
                old(self).index.db_model(),
                old(self).index.phrases@,
                *query,
            ),
            old(self).cache.entries().contains_key(query.must@) ==> {
                &&& final(self).cache.hits == bump(old(self).cache.hits)
                &&& final(self).cache.misses == old(self).cache.misses
                &&& final(self).cache.inserts == old(self).cache.inserts
            },
            !old(self).cache.entries().contains_key(query.must@) ==> {
                &&& final(self).cache.hits == old(self).cache.hits
                &&& final(self).cache.misses == bump(old(self).cache.misses)
                &&& final(self).cache.inserts == bump(old(self).cache.inserts)
            },
    {
        let hm = self.create_heatmap(query.must.as_str());
        proof {
            lemma_heat_upto_sound(
                self.index.db_model(),
                spec_trigramize(query.must@),
                spec_trigramize(query.must@).len() as int,
                self.index.phrases@,
            );
        }
        let sh = self.should_scores(&*hm, &query.should, query.constraint);
        self.filtered_results(query, &*hm, &sh)
    }

    /// Live cache counters; `size` is read from the LRU itself.
    pub fn cache_stats(&self) -> (r: CacheStats)
        ensures
            r.hits == self.cache.hits,
            r.misses == self.cache.misses,
            r.inserts == self.cache.inserts,
            r.size == self.cache.entries().dom().len(),
    {
        CacheStats {
            hits: self.cache.hits,
            misses: self.cache.misses,
            inserts: self.cache.inserts,
            size: self.cache.len(),
        }
    }
}

impl Indexer {
    /// Freeze the index: score every trigram and wrap the result with a
    /// heatmap cache of the given capacity (at least 1).
    pub fn finish_with_cache(self, cache_size: usize) -> (r: Index)
        requires
            self.wf(),
            cache_size >= 1,
        ensures
            r.wf(),
            r.index.phrases == self.phrases,
            r.cache.hits == 0 && r.cache.misses == 0 && r.cache.inserts == 0,
            r.cache.entries() == crate::cache::no_entries(),
            self.db.recs@.len() == 0 ==> r.index.db_model() == self.db_model(),
            self.db.recs@.len() >= 1 ==> frozen_from(
                self.db_model(),
                r.index.db_model(),
                sum_counts(self.db.recs@),
                self.db.recs@.len() as int,
                max_count(self.db.recs@),
            ),
    {
        let mut me = self;
        if me.db.recs.len() == 0 {
            proof {
                assert forall|t: Seq<char>| !me.db_model().contains_key(t) by {
                    if me.db.has(t) {
                        let w = me.db.idx_of(t);
                        assert(0 <= w < me.db.recs@.len());
                    }
                }
            }
            Index::new(me, cache_size)
        } else {
            me.freeze_scores();
            Index::new(me, cache_size)
        }
    }

    /// Freeze the index with the default cache capacity of 2000 heatmaps.
    pub fn finish(self) -> (r: Index)
        requires
            self.wf(),
        ensures
            r.wf(),
            r.index.phrases == self.phrases,
            r.cache.hits == 0 && r.cache.misses == 0 && r.cache.inserts == 0,
            r.cache.entries() == crate::cache::no_entries(),
            self.db.recs@.len() == 0 ==> r.index.db_model() == self.db_model(),
            self.db.recs@.len() >= 1 ==> frozen_from(
                self.db_model(),
                r.index.db_model(),
                sum_counts(self.db.recs@),
                self.db.recs@.len() as int,
                max_count(self.db.recs@),
            ),
    {
        self.finish_with_cache(2000)
    }
}

} // verus!
