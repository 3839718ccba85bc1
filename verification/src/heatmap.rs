//! Per-query trigram heatmap: for every candidate phrase, how much trigram
//! score each of its tokens collected from the must token's trigrams.

use vstd::prelude::*;
use crate::indexer::{EntryModel, Position};
use crate::utils::spec_trigramize;

verus! {

/// Saturating 64-bit addition; heat scores accumulate with it.
pub open spec fn sat_add(a: u64, b: u64) -> u64 {
    if a + b > u64::MAX {
        u64::MAX
    } else {
        (a + b) as u64
    }
}

/// Heat collected by one token of a phrase.
#[derive(Clone, Copy, Debug)]
pub struct TokenHeat {
    pub token_idx: usize,
    pub score: u64,
}

/// Mathematical image of one phrase's heatmap.
pub ghost struct PhraseHeatModel {
    pub phrase_idx: usize,
    pub tokens: Seq<TokenHeat>,
    pub total: u64,
}

/// Mathematical image of a heatmap.
pub ghost struct HeatModel {
    pub phrases: Seq<PhraseHeatModel>,
    pub max: u64,
}

/// Index of the first entry for phrase `p`, or -1 if there is none.
pub open spec fn find_phrase_at(s: Seq<PhraseHeatModel>, p: usize) -> int
    decreases s.len(),
{
    if s.len() == 0 {
        -1
    } else if s[0].phrase_idx == p {
        0
    } else {
        let r = find_phrase_at(s.drop_first(), p);
        if r < 0 {
            -1
        } else {
            1 + r
        }
    }
}

/// Index of the first heat entry for token `ti`, or -1 if there is none.
pub open spec fn find_token_at(s: Seq<TokenHeat>, ti: usize) -> int
    decreases s.len(),
{
    if s.len() == 0 {
        -1
    } else if s[0].token_idx == ti {
        0
    } else {
        let r = find_token_at(s.drop_first(), ti);
        if r < 0 {
            -1
        } else {
            1 + r
        }
    }
}

pub proof fn lemma_find_phrase(s: Seq<PhraseHeatModel>, p: usize)
    ensures
        find_phrase_at(s, p) >= 0 ==> 0 <= find_phrase_at(s, p) < s.len() && s[find_phrase_at(
            s,
            p,
        )].phrase_idx == p && (forall|k: int| 0 <= k < find_phrase_at(s, p) ==> s[k].phrase_idx != p),
        find_phrase_at(s, p) < 0 ==> (forall|k: int| 0 <= k < s.len() ==> s[k].phrase_idx != p),
    decreases s.len(),
{
    if s.len() > 0 && s[0].phrase_idx != p {
        lemma_find_phrase(s.drop_first(), p);
        let r = find_phrase_at(s.drop_first(), p);
        if r >= 0 {
            assert forall|k: int| 0 <= k < 1 + r implies s[k].phrase_idx != p by {
                if k > 0 {
                    assert(s.drop_first()[k - 1].phrase_idx != p);
                }
            }
        } else {
            assert forall|k: int| 0 <= k < s.len() implies s[k].phrase_idx != p by {
                if k > 0 {
                    assert(s.drop_first()[k - 1].phrase_idx != p);
                }
            }
        }
    }
}

pub proof fn lemma_find_token(s: Seq<TokenHeat>, ti: usize)
    ensures
        find_token_at(s, ti) >= 0 ==> 0 <= find_token_at(s, ti) < s.len() && s[find_token_at(
            s,
            ti,
        )].token_idx == ti && (forall|k: int| 0 <= k < find_token_at(s, ti) ==> s[k].token_idx != ti),
        find_token_at(s, ti) < 0 ==> (forall|k: int| 0 <= k < s.len() ==> s[k].token_idx != ti),
    decreases s.len(),
{
    if s.len() > 0 && s[0].token_idx != ti {
        lemma_find_token(s.drop_first(), ti);
        let r = find_token_at(s.drop_first(), ti);
        if r >= 0 {
            assert forall|k: int| 0 <= k < 1 + r implies s[k].token_idx != ti by {
                if k > 0 {
                    assert(s.drop_first()[k - 1].token_idx != ti);
                }
            }
        } else {
            assert forall|k: int| 0 <= k < s.len() implies s[k].token_idx != ti by {
                if k > 0 {
                    assert(s.drop_first()[k - 1].token_idx != ti);
                }
            }
        }
    }
}

/// Add `sc` to the heat of token `ti`, creating its entry if needed.
pub open spec fn bump_token(toks: Seq<TokenHeat>, ti: usize, sc: u32) -> Seq<TokenHeat> {
    let j = find_token_at(toks, ti);
    if j < 0 {
        toks.push(TokenHeat { token_idx: ti, score: sc as u64 })
    } else {
        toks.update(j, TokenHeat { token_idx: ti, score: sat_add(toks[j].score, sc as u64) })
    }
}

/// One position of a trigram with score `sc` heats its phrase and token.
pub open spec fn heat_add_pos(h: HeatModel, pos: Position, sc: u32) -> HeatModel {
    let i = find_phrase_at(h.phrases, pos.phrase_idx);
    if i < 0 {
        let total = sc as u64;
        HeatModel {
            phrases: h.phrases.push(
                PhraseHeatModel {
                    phrase_idx: pos.phrase_idx,
                    tokens: seq![TokenHeat { token_idx: pos.token_idx, score: sc as u64 }],
                    total: total,
                },
            ),
            max: if total > h.max {
                total
            } else {
                h.max
            },
        }
    } else {
        let total = sat_add(h.phrases[i].total, sc as u64);
        HeatModel {
            phrases: h.phrases.update(
                i,
                PhraseHeatModel {
                    phrase_idx: pos.phrase_idx,
                    tokens: bump_token(h.phrases[i].tokens, pos.token_idx, sc),
                    total: total,
                },
            ),
            max: if total > h.max {
                total
            } else {
                h.max
            },
        }
    }
}

/// The heatmap after the first `j` positions of one trigram record (with
/// score `sc`) have been added.
pub open spec fn heat_add_entry_upto(h: HeatModel, ps: Seq<Position>, sc: u32, j: int) -> HeatModel
    decreases j,
{
    if j <= 0 {
        h
    } else {
        heat_add_pos(heat_add_entry_upto(h, ps, sc, j - 1), ps[j - 1], sc)
    }
}

/// The heatmap after the first `k` trigrams of `tris` have been looked up in
/// `db` and their occurrences added.
pub open spec fn heat_upto(
    db: Map<Seq<char>, EntryModel>,
    tris: Seq<Seq<char>>,
    k: int,
) -> HeatModel
    decreases k,
{
    if k <= 0 {
        HeatModel { phrases: Seq::empty(), max: 0 }
    } else {
        let prev = heat_upto(db, tris, k - 1);
        let t = tris[k - 1];
        if db.contains_key(t) {
            heat_add_entry_upto(prev, db[t].positions, db[t].score, db[t].positions.len() as int)
        } else {
            prev
        }
    }
}

/// The heatmap of a must token against a frozen inverted index.
pub open spec fn spec_heatmap(db: Map<Seq<char>, EntryModel>, must: Seq<char>) -> HeatModel {
    heat_upto(db, spec_trigramize(must), spec_trigramize(must).len() as int)
}

/// Heat collected by one candidate phrase, token by token.
#[derive(Clone, Debug)]
pub struct PhraseHeatmap {
    /// The phrase this heat belongs to.
    pub phrase_idx: usize,
    /// Heat per token of the phrase.
    pub tokens: Vec<TokenHeat>,
    /// Total heat of the phrase.
    pub total_score: u64,
}

impl PhraseHeatmap {
    pub open spec fn model(self) -> PhraseHeatModel {
        PhraseHeatModel {
            phrase_idx: self.phrase_idx,
            tokens: self.tokens@,
            total: self.total_score,
        }
    }

    /// A fresh, empty heat record for one phrase.
    pub fn new(phrase_idx: usize) -> (r: PhraseHeatmap)
        ensures
            r.model() == (PhraseHeatModel {
                phrase_idx: phrase_idx,
                tokens: Seq::<TokenHeat>::empty(),
                total: 0u64,
            }),
    {
        let r = PhraseHeatmap { phrase_idx, tokens: Vec::new(), total_score: 0 };
        proof {
            assert(r.tokens@ =~= Seq::<TokenHeat>::empty());
        }
        r
    }
}

/// Find the position of a token's heat entry in a phrase heat record.
fn find_token(toks: &Vec<TokenHeat>, token_idx: usize) -> (r: Option<usize>)
    ensures
        match r {
            Some(j) => j < toks@.len() && find_token_at(toks@, token_idx) == j && toks@[
                j as int
            ].token_idx == token_idx,
            None => find_token_at(toks@, token_idx) < 0,
        },
{
    let nt = toks.len();
    let mut j: usize = 0;
    while j < nt
        invariant
            0 <= j <= nt,
            nt == toks@.len(),
            forall|k: int| 0 <= k < j ==> toks@[k].token_idx != token_idx,
        decreases nt - j,
    {
        if toks[j].token_idx == token_idx {
            proof {
                lemma_find_token(toks@, token_idx);
                let f = find_token_at(toks@, token_idx);
                assert(toks@[j as int].token_idx == token_idx);
                if f < 0 {
                    assert(false);
                }
                if f < j {
                    assert(toks@[f].token_idx != token_idx);
                    assert(false);
                }
                if f > j {
                    assert(false);
                }
            }
            return Some(j);
        }
        j = j + 1;
    }
    proof {
        lemma_find_token(toks@, token_idx);
        let f = find_token_at(toks@, token_idx);
        if f >= 0 {
            assert(toks@[f].token_idx != token_idx);
        }
    }
    None
}

/// The trigram heatmap of one must token: every phrase that shares a trigram
/// with it, with per-token and total heat, and the best total seen.
#[derive(Clone, Debug)]
pub struct Heatmap {
    /// Candidate phrases in first-contact order.
    pub phrases: Vec<PhraseHeatmap>,
    /// The largest total heat of any phrase.
    pub max_score: u64,
}

impl Heatmap {
    pub open spec fn model(self) -> HeatModel {
        HeatModel {
            phrases: Seq::new(
                self.phrases@.len(),
                |i: int| self.phrases@[i].model(),
            ),
            max: self.max_score,
        }
    }

    /// A fresh, empty heatmap.
    pub fn new() -> (r: Heatmap)
        ensures
            r.model() == (HeatModel { phrases: Seq::<PhraseHeatModel>::empty(), max: 0u64 }),
    {
        let r = Heatmap { phrases: Vec::new(), max_score: 0 };
        proof {
            assert(r.model().phrases =~= Seq::<PhraseHeatModel>::empty());
        }
        r
    }

    /// Find the position of a phrase in the candidate list.
    pub(crate) fn find_phrase(&self, phrase_idx: usize) -> (r: Option<usize>)
        ensures
            match r {
                Some(i) => i < self.phrases@.len() && find_phrase_at(
                    self.model().phrases,
                    phrase_idx,
                ) == i && self.phrases@[i as int].phrase_idx == phrase_idx,
                None => find_phrase_at(self.model().phrases, phrase_idx) < 0,
            },
    {
        let n = self.phrases.len();
        let mut i: usize = 0;
        while i < n
            invariant
                0 <= i <= n,
                n == self.phrases@.len(),
                forall|k: int| 0 <= k < i ==> self.phrases@[k].phrase_idx != phrase_idx,
            decreases n - i,
        {
            if self.phrases[i].phrase_idx == phrase_idx {
                proof {
                    lemma_find_phrase(self.model().phrases, phrase_idx);
                    let f = find_phrase_at(self.model().phrases, phrase_idx);
                    assert(self.model().phrases[i as int].phrase_idx == phrase_idx);
                    if f < 0 {
                        assert(false);
                    }
                    if f < i {
                        assert(self.phrases@[f].phrase_idx != phrase_idx);
                        assert(self.model().phrases[f].phrase_idx == phrase_idx);
                        assert(false);
                    }
                    if f > i {
                        assert(self.model().phrases[i as int].phrase_idx != phrase_idx);
                        assert(false);
                    }
                }
                return Some(i);
            }
            i = i + 1;
        }
        proof {
            lemma_find_phrase(self.model().phrases, phrase_idx);
            let f = find_phrase_at(self.model().phrases, phrase_idx);
            if f >= 0 {
                assert(self.phrases@[f].phrase_idx != phrase_idx);
                assert(self.model().phrases[f].phrase_idx == phrase_idx);
            }
        }
        None
    }

    /// Number of candidate phrases in the heatmap.
    pub fn len_phrases(&self) -> (r: usize)
        ensures
            r == self.model().phrases.len(),
    {
        self.phrases.len()
    }

    /// Whether a phrase collected any heat.
    pub fn has_phrase(&self, phrase_idx: usize) -> (r: bool)
        ensures
            r == (find_phrase_at(self.model().phrases, phrase_idx) >= 0),
    {
        match self.find_phrase(phrase_idx) {
            Some(_) => true,
            None => false,
        }
    }

    /// Add `score` at (phrase, token), extending the phrase's total and the
    /// global maximum.
    pub fn add_phrase(&mut self, phrase_idx: usize, token_idx: usize, score: u32)
        ensures
            final(self).model() == heat_add_pos(
                old(self).model(),
                Position { phrase_idx, token_idx },
                score,
            ),
    {
        let ghost h0 = self.model();
        let ghost pos = Position { phrase_idx, token_idx };
        let found = self.find_phrase(phrase_idx);
        match found {
            None => {
                let mut ph = PhraseHeatmap::new(phrase_idx);
                ph.tokens.push(TokenHeat { token_idx, score: score as u64 });
                ph.total_score = score as u64;
                let ghost phm = ph.model();
                self.phrases.push(ph);
                if score as u64 > self.max_score {
                    self.max_score = score as u64;
                }
                proof {
                    assert(phm.tokens =~= seq![TokenHeat { token_idx, score: score as u64 }]);
                    assert(self.model().phrases =~= h0.phrases.push(phm));
                    assert(self.model() == heat_add_pos(h0, pos, score));
                }
            },
            Some(i) => {
                let ghost phm0 = self.phrases@[i as int].model();
                let tfound = find_token(&self.phrases[i].tokens, token_idx);
                let total: u64;
                {
                    let ph = &mut self.phrases[i];
                    match tfound {
                        Some(j) => {
                            let th = &mut ph.tokens[j];
                            th.score = th.score.saturating_add(score as u64);
                        },
                        None => {
                            ph.tokens.push(TokenHeat { token_idx, score: score as u64 });
                        },
                    }
                    total = ph.total_score.saturating_add(score as u64);
                    ph.total_score = total;
                }
                proof {
                    assert(self.phrases@[i as int].tokens@ =~= bump_token(
                        phm0.tokens,
                        token_idx,
                        score,
                    ));
                }
                if total > self.max_score {
                    self.max_score = total;
                }
                proof {
                    let inew = find_phrase_at(h0.phrases, phrase_idx);
                    assert(inew == i);
                    assert(self.phrases@[i as int].model() == (PhraseHeatModel {
                        phrase_idx: phrase_idx,
                        tokens: bump_token(phm0.tokens, token_idx, score),
                        total: sat_add(phm0.total, score as u64),
                    }));
                    assert(self.model().phrases =~= h0.phrases.update(
                        i as int,
                        PhraseHeatModel {
                            phrase_idx: phrase_idx,
                            tokens: bump_token(phm0.tokens, token_idx, score),
                            total: sat_add(phm0.total, score as u64),
                        },
                    ));
                    assert(self.model() == heat_add_pos(h0, pos, score));
                }
            },
        }
    }
}

} // verus!
