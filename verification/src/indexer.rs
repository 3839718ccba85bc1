//! Build-phase structures: the trigram inverted index and the phrase table.
//!
//! An `Indexer` is mutable: phrases are added one by one, and every trigram
//! of every token records the position (phrase, token) where it occurs.
//! Freezing assigns each trigram a selectivity score; a frozen index is
//! wrapped by `seeker::Index` and never mutated again.

use vstd::prelude::*;
use std::collections::HashMap;
use crate::utils::{spec_tokenize, spec_trigramize, tokenize, trigramize};
use crate::levenshtein::string_eq;

verus! {

/// Error returned by `add_phrase` when the phrase id is already present.
#[derive(Debug)]
pub struct DuplicateId;

/// One occurrence of a trigram: which phrase it is in, and which token of
/// that phrase it came from.
#[derive(Clone, Copy, Debug)]
pub struct Position {
    pub phrase_idx: usize,
    pub token_idx: usize,
}

/// One record of the inverted index: a trigram, every position where it
/// occurs, and the selectivity score assigned when the index is frozen.
#[derive(Debug)]
pub struct TrigramRecord {
    pub trigram: String,
    pub positions: Vec<Position>,
    pub score: u32,
}

/// Mathematical image of one trigram record.
pub ghost struct EntryModel {
    pub positions: Seq<Position>,
    pub score: u32,
}

/// Mathematical image of one phrase entry.
pub ghost struct PhraseModel {
    pub origin: Seq<char>,
    pub tokens: Seq<Seq<char>>,
    pub constraints: Set<usize>,
}

/// The inverted index: an association list keyed by trigram, with each
/// trigram occurring in at most one record.
#[derive(Debug)]
pub struct TrigramDb {
    pub recs: Vec<TrigramRecord>,
}

impl TrigramDb {
    /// Each trigram occurs in at most one record.
    pub open spec fn wf(self) -> bool {
        forall|i: int, j: int|
            0 <= i < j < self.recs@.len() ==> self.recs@[i].trigram@ != self.recs@[j].trigram@
    }

    pub open spec fn has(self, t: Seq<char>) -> bool {
        exists|i: int| 0 <= i < self.recs@.len() && self.recs@[i].trigram@ == t
    }

    pub open spec fn idx_of(self, t: Seq<char>) -> int {
        choose|i: int| 0 <= i < self.recs@.len() && self.recs@[i].trigram@ == t
    }

    /// The inverted index as a map from trigram to its record's image.
    pub open spec fn model(self) -> Map<Seq<char>, EntryModel> {
        Map::new(
            |t: Seq<char>| self.has(t),
            |t: Seq<char>|
                EntryModel {
                    positions: self.recs@[self.idx_of(t)].positions@,
                    score: self.recs@[self.idx_of(t)].score,
                },
        )
    }

    /// Under well-formedness, record `i` is the unique one for its trigram.
    pub(crate) proof fn lemma_at(self, i: int)
        requires
            self.wf(),
            0 <= i < self.recs@.len(),
        ensures
            self.has(self.recs@[i].trigram@),
            self.idx_of(self.recs@[i].trigram@) == i,
            self.model().contains_key(self.recs@[i].trigram@),
            self.model()[self.recs@[i].trigram@] == (EntryModel {
                positions: self.recs@[i].positions@,
                score: self.recs@[i].score,
            }),
    {
        let t = self.recs@[i].trigram@;
        assert(self.has(t));
        let j = self.idx_of(t);
        assert(0 <= j < self.recs@.len() && self.recs@[j].trigram@ == t);
        if j < i {
            assert(self.recs@[j].trigram@ != self.recs@[i].trigram@);
        }
        if i < j {
            assert(self.recs@[i].trigram@ != self.recs@[j].trigram@);
        }
    }

    /// Linear lookup of a trigram.
    pub(crate) fn find(&self, t: &String) -> (r: Option<usize>)
        requires
            self.wf(),
        ensures
            match r {
                Some(i) => i < self.recs@.len() && self.recs@[i as int].trigram@ == t@
                    && self.has(t@) && self.idx_of(t@) == i,
                None => !self.has(t@),
            },
    {
        let n = self.recs.len();
        let mut i: usize = 0;
        while i < n
            invariant
                0 <= i <= n,
                n == self.recs@.len(),
                self.wf(),
                forall|k: int| 0 <= k < i ==> self.recs@[k].trigram@ != t@,
            decreases n - i,
        {
            if string_eq(&self.recs[i].trigram, t) {
                proof {
                    self.lemma_at(i as int);
                }
                return Some(i);
            }
            i = i + 1;
        }
        None
    }
}

/// A record changed in place (same trigram, at the same index) updates the
/// model at exactly that trigram's key.
proof fn lemma_update_model(db0: TrigramDb, db1: TrigramDb, i: int)
    requires
        db0.wf(),
        0 <= i < db0.recs@.len(),
        db1.recs@.len() == db0.recs@.len(),
        db1.recs@[i].trigram@ == db0.recs@[i].trigram@,
        forall|k: int| 0 <= k < db0.recs@.len() && k != i ==> db1.recs@[k] == db0.recs@[k],
    ensures
        db1.wf(),
        db1.model() == db0.model().insert(
            db0.recs@[i].trigram@,
            EntryModel { positions: db1.recs@[i].positions@, score: db1.recs@[i].score },
        ),
{
    assert(forall|k: int|
        0 <= k < db1.recs@.len() ==> db1.recs@[k].trigram@ == db0.recs@[k].trigram@);
    let ti = db0.recs@[i].trigram@;
    let em = EntryModel { positions: db1.recs@[i].positions@, score: db1.recs@[i].score };
    let m0 = db0.model();
    let m1 = db1.model();
    assert forall|t: Seq<char>| db1.has(t) <==> db0.has(t) by {
        if db1.has(t) {
            let j = db1.idx_of(t);
            assert(db0.recs@[j].trigram@ == t);
        }
        if db0.has(t) {
            let j = db0.idx_of(t);
            assert(db1.recs@[j].trigram@ == t);
        }
    }
    assert(m1 =~= m0.insert(ti, em)) by {
        db0.lemma_at(i);
        db1.lemma_at(i);
        assert forall|t: Seq<char>| m1.contains_key(t) implies m1[t] == m0.insert(ti, em)[t] by {
            let j1 = db1.idx_of(t);
            assert(0 <= j1 < db1.recs@.len() && db1.recs@[j1].trigram@ == t);
            db1.lemma_at(j1);
            if t == ti {
                assert(j1 == i);
            } else {
                assert(j1 != i);
                assert(db0.recs@[j1] == db1.recs@[j1]);
                db0.lemma_at(j1);
            }
        }
    }
}

/// Appending a record with a fresh trigram inserts exactly one new key.
proof fn lemma_push_model(db0: TrigramDb, db1: TrigramDb)
    requires
        db0.wf(),
        db1.recs@.len() == db0.recs@.len() + 1,
        forall|k: int| 0 <= k < db0.recs@.len() ==> db1.recs@[k] == db0.recs@[k],
        !db0.has(db1.recs@[db0.recs@.len() as int].trigram@),
    ensures
        db1.wf(),
        db1.model() == db0.model().insert(
            db1.recs@[db0.recs@.len() as int].trigram@,
            EntryModel {
                positions: db1.recs@[db0.recs@.len() as int].positions@,
                score: db1.recs@[db0.recs@.len() as int].score,
            },
        ),
{
    let n = db0.recs@.len() as int;
    let ti = db1.recs@[n].trigram@;
    assert(db1.wf()) by {
        assert forall|i: int, j: int|
            0 <= i < j < db1.recs@.len() implies db1.recs@[i].trigram@ != db1.recs@[j].trigram@ by {
            if j < n {
                assert(db0.recs@[i].trigram@ != db0.recs@[j].trigram@);
            } else {
                assert(j == n);
                if db1.recs@[i].trigram@ == ti {
                    assert(db0.recs@[i].trigram@ == ti);
                    assert(db0.has(ti));
                }
            }
        }
    }
    let em = EntryModel {
        positions: db1.recs@[n].positions@,
        score: db1.recs@[n].score,
    };
    db1.lemma_at(n);
    assert(db1.model() =~= db0.model().insert(ti, em)) by {
        assert forall|t: Seq<char>| db1.has(t) implies (t == ti || db0.has(t)) by {
            let j = db1.idx_of(t);
            if j < n {
                assert(db0.recs@[j].trigram@ == t);
            }
        }
        assert forall|t: Seq<char>| db0.has(t) implies db1.has(t) by {
            let j = db0.idx_of(t);
            assert(db1.recs@[j].trigram@ == t);
        }
        assert forall|t: Seq<char>| db1.model().contains_key(t) implies db1.model()[t]
            == db0.model().insert(ti, em)[t] by {
            let j1 = db1.idx_of(t);
            assert(0 <= j1 < db1.recs@.len() && db1.recs@[j1].trigram@ == t);
            db1.lemma_at(j1);
            if t == ti {
                assert(j1 == n);
            } else {
                assert(j1 < n);
                db0.lemma_at(j1);
            }
        }
    }
}

/// The inverted index after the first `j` of the trigrams `tris` have each
/// recorded an occurrence at `pos` (in order).
pub open spec fn add_tris_upto(
    m: Map<Seq<char>, EntryModel>,
    tris: Seq<Seq<char>>,
    pos: Position,
    j: int,
) -> Map<Seq<char>, EntryModel>
    decreases j,
{
    if j <= 0 {
        m
    } else {
        let prev = add_tris_upto(m, tris, pos, j - 1);
        let t = tris[j - 1];
        if prev.contains_key(t) {
            prev.insert(
                t,
                EntryModel { positions: prev[t].positions.push(pos), score: prev[t].score },
            )
        } else {
            prev.insert(t, EntryModel { positions: seq![pos], score: 0u32 })
        }
    }
}

/// The inverted index after the first `k` of the tokens `tokens` of phrase
/// `pid` have been indexed (in order).
pub open spec fn add_tokens_upto(
    m: Map<Seq<char>, EntryModel>,
    tokens: Seq<Seq<char>>,
    pid: usize,
    k: int,
) -> Map<Seq<char>, EntryModel>
    decreases k,
{
    if k <= 0 {
        m
    } else {
        let prev = add_tokens_upto(m, tokens, pid, k - 1);
        let tris = spec_trigramize(tokens[k - 1]);
        add_tris_upto(
            prev,
            tris,
            Position { phrase_idx: pid, token_idx: (k - 1) as usize },
            tris.len() as int,
        )
    }
}

/// A position is sound for a phrase table: it names a stored phrase, a token
/// of that phrase, and a trigram of that token.
pub open spec fn pos_ok(phs: Map<usize, PhraseEntry>, t: Seq<char>, pos: Position) -> bool {
    &&& phs.contains_key(pos.phrase_idx)
    &&& pos.token_idx < phs[pos.phrase_idx].tokens@.len()
    &&& spec_trigramize(phs[pos.phrase_idx].tokens@[pos.token_idx as int]@).contains(t)
}

/// Every stored position is sound, and no record is empty.
pub open spec fn db_ok(m: Map<Seq<char>, EntryModel>, phs: Map<usize, PhraseEntry>) -> bool {
    &&& forall|t: Seq<char>, k: int|
        m.contains_key(t) && 0 <= k < m[t].positions.len() ==> pos_ok(
            phs,
            t,
            #[trigger] m[t].positions[k],
        )
    &&& forall|t: Seq<char>| m.contains_key(t) ==> (#[trigger] m[t]).positions.len() >= 1
}

proof fn lemma_add_tris_ok(
    m: Map<Seq<char>, EntryModel>,
    tris: Seq<Seq<char>>,
    pos: Position,
    j: int,
    phs: Map<usize, PhraseEntry>,
)
    requires
        db_ok(m, phs),
        j <= tris.len(),
        forall|x: int| 0 <= x < j ==> pos_ok(phs, tris[x], pos),
    ensures
        db_ok(add_tris_upto(m, tris, pos, j), phs),
    decreases j,
{
    if j > 0 {
        lemma_add_tris_ok(m, tris, pos, j - 1, phs);
    }
}

proof fn lemma_add_tokens_ok(
    m: Map<Seq<char>, EntryModel>,
    tokens: Seq<Seq<char>>,
    pid: usize,
    k: int,
    phs: Map<usize, PhraseEntry>,
)
    requires
        db_ok(m, phs),
        k <= tokens.len(),
        tokens.len() <= usize::MAX,
        phs.contains_key(pid),
        phs[pid].tokens.deep_view() == tokens,
    ensures
        db_ok(add_tokens_upto(m, tokens, pid, k), phs),
    decreases k,
{
    if k > 0 {
        lemma_add_tokens_ok(m, tokens, pid, k - 1, phs);
        let tris = spec_trigramize(tokens[k - 1]);
        let pos = Position { phrase_idx: pid, token_idx: (k - 1) as usize };
        assert(pos.token_idx == k - 1);
        assert forall|x: int| 0 <= x < tris.len() implies pos_ok(phs, tris[x], pos) by {
            let tt = phs[pid].tokens@[k - 1]@;
            assert(phs[pid].tokens.deep_view()[k - 1] == tt);
            assert(tt == tokens[k - 1]);
            assert(spec_trigramize(tt)[x] == tris[x]);
            assert(spec_trigramize(tt).contains(tris[x]));
        }
        lemma_add_tris_ok(add_tokens_upto(m, tokens, pid, k - 1), tris, pos, tris.len() as int, phs);
    }
}

/// Soundness is preserved when a fresh phrase is added to the table.
proof fn lemma_db_ok_fresh_phrase(
    m: Map<Seq<char>, EntryModel>,
    phs: Map<usize, PhraseEntry>,
    pid: usize,
    e: PhraseEntry,
)
    requires
        db_ok(m, phs),
        !phs.contains_key(pid),
    ensures
        db_ok(m, phs.insert(pid, e)),
{
    let phs1 = phs.insert(pid, e);
    assert forall|t: Seq<char>, k: int|
        m.contains_key(t) && 0 <= k < m[t].positions.len() implies pos_ok(
        phs1,
        t,
        #[trigger] m[t].positions[k],
    ) by {
        assert(pos_ok(phs, t, m[t].positions[k]));
        assert(m[t].positions[k].phrase_idx != pid);
    }
}

/// Information stored about one inserted phrase.
#[derive(Debug)]
pub struct PhraseEntry {
    /// Phrase id, as given by the caller.
    pub idx: usize,
    /// The phrase exactly as given.
    pub origin: String,
    /// The tokens of the phrase (`min_length` 1).
    pub tokens: Vec<String>,
    /// Constraint ids under which this phrase is valid.
    pub constraints: Vec<usize>,
}

impl PhraseEntry {
    pub open spec fn model(self) -> PhraseModel {
        PhraseModel {
            origin: self.origin@,
            tokens: self.tokens.deep_view(),
            constraints: self.constraints@.to_set(),
        }
    }
}

/// The set of constraints named by an optional constraint list.
pub open spec fn constraints_set(constraints: Option<&Vec<usize>>) -> Set<usize> {
    match constraints {
        Some(v) => v@.to_set(),
        None => Set::empty(),
    }
}

fn copy_ids(v: &Vec<usize>) -> (r: Vec<usize>)
    ensures
        r@ == v@,
{
    let mut r: Vec<usize> = Vec::new();
    let n = v.len();
    let mut i: usize = 0;
    while i < n
        invariant
            0 <= i <= n,
            n == v@.len(),
            r@ =~= v@.take(i as int),
        decreases n - i,
    {
        r.push(v[i]);
        i = i + 1;
    }
    proof {
        assert(v@.take(n as int) =~= v@);
    }
    r
}

/// The index while it is being built; `add_phrase` fills it, freezing turns
/// it into a searchable `Index`.
#[derive(Debug)]
pub struct Indexer {
    /// Inverted index: trigram to its occurrences.
    pub db: TrigramDb,
    /// Phrase table, keyed by the caller's phrase id.
    pub phrases: HashMap<usize, PhraseEntry>,
}

impl Indexer {
    pub open spec fn db_model(self) -> Map<Seq<char>, EntryModel> {
        self.db.model()
    }

    pub open spec fn phrases_model(self) -> Map<usize, PhraseModel> {
        self.phrases@.map_values(|e: PhraseEntry| e.model())
    }

    /// Build-phase invariant: unique trigram records, sound positions, and
    /// phrase entries that are exactly the tokenization of their origin.
    pub open spec fn wf(self) -> bool {
        &&& self.db.wf()
        &&& db_ok(self.db.model(), self.phrases@)
        &&& forall|p: usize|
            self.phrases@.contains_key(p) ==> (#[trigger] self.phrases@[p]).idx == p
                && self.phrases@[p].tokens.deep_view() == spec_tokenize(
                self.phrases@[p].origin@,
                1,
            )
    }

    /// Create a new empty index in the building state; the trigram store
    /// is pre-sized for a realistic dictionary.
    pub fn new() -> (r: Indexer)
        ensures
            r.wf(),
            r.db_model() == Map::<Seq<char>, EntryModel>::empty(),
            r.phrases_model() == Map::<usize, PhraseModel>::empty(),
            r.phrases@ == Map::<usize, PhraseEntry>::empty(),
    {
        let r = Indexer { db: TrigramDb { recs: Vec::with_capacity(32768) }, phrases: HashMap::new() };
        proof {
            assert(r.db.model() =~= Map::<Seq<char>, EntryModel>::empty());
            assert(r.phrases_model() =~= Map::<usize, PhraseModel>::empty());
        }
        r
    }

    /// Record every trigram of one token at position (`phrase_idx`,
    /// `token_idx`).
    fn add_token(&mut self, token: &String, phrase_idx: usize, token_idx: usize)
        requires
            old(self).db.wf(),
        ensures
            final(self).db.wf(),
            final(self).db.model() == add_tris_upto(
                old(self).db.model(),
                spec_trigramize(token@),
                Position { phrase_idx, token_idx },
                spec_trigramize(token@).len() as int,
            ),
            final(self).phrases == old(self).phrases,
    {
        let tris = trigramize(token.as_str());
        let ghost tseq = spec_trigramize(token@);
        let ghost pos = Position { phrase_idx, token_idx };
        let nt = tris.len();
        proof {
            assert(tris.deep_view().len() == nt);
        }
        let mut j: usize = 0;
        while j < nt
            invariant
                0 <= j <= nt,
                nt == tris@.len(),
                tris.deep_view() == tseq,
                tseq == spec_trigramize(token@),
                pos == (Position { phrase_idx, token_idx }),
                self.db.wf(),
                self.db.model() == add_tris_upto(old(self).db.model(), tseq, pos, j as int),
                self.phrases == old(self).phrases,
            decreases nt - j,
        {
            proof {
                assert(tris.deep_view()[j as int] == tris@[j as int]@);
            }
            let ghost db0 = self.db;
            let found = self.db.find(&tris[j]);
            match found {
                Some(i) => {
                    proof {
                        db0.lemma_at(i as int);
                    }
                    {
                        let rec = &mut self.db.recs[i];
                        rec.positions.push(Position { phrase_idx, token_idx });
                    }
                    proof {
                        let t = tseq[j as int];
                        let prev = add_tris_upto(old(self).db.model(), tseq, pos, j as int);
                        assert(prev == db0.model());
                        assert(db0.recs@[i as int].trigram@ == t);
                        assert(prev.contains_key(t));
                        assert(self.db.recs@.len() == db0.recs@.len());
                        assert(self.db.recs@[i as int].trigram@ == db0.recs@[i as int].trigram@);
                        assert(self.db.recs@[i as int].positions@.len() == db0.recs@[
                            i as int
                        ].positions@.len() + 1);
                        assert(self.db.recs@[i as int].positions@.last() == pos);
                        assert(self.db.recs@[i as int].positions@ == db0.recs@[
                            i as int
                        ].positions@.push(pos));
                        assert(self.db.recs@[i as int].score == db0.recs@[i as int].score);
                        lemma_update_model(db0, self.db, i as int);
                        assert(prev[t].positions == db0.recs@[i as int].positions@);
                        assert(prev[t].score == db0.recs@[i as int].score);
                        assert(self.db.model() == prev.insert(
                            t,
                            EntryModel {
                                positions: prev[t].positions.push(pos),
                                score: prev[t].score,
                            },
                        ));
                        assert(add_tris_upto(old(self).db.model(), tseq, pos, j + 1) == prev.insert(
                            t,
                            EntryModel {
                                positions: prev[t].positions.push(pos),
                                score: prev[t].score,
                            },
                        ));
                    }
                },
                None => {
                    let mut ps: Vec<Position> = Vec::new();
                    ps.push(Position { phrase_idx, token_idx });
                    let ghost psv = ps@;
                    let tri = tris[j].clone();
                    proof {
                        assert(tri@ == tseq[j as int]);
                        assert(psv.len() == 1);
                        assert(psv[0] == Position { phrase_idx: phrase_idx, token_idx: token_idx });
                        assert(pos == Position { phrase_idx: phrase_idx, token_idx: token_idx });
                        assert(psv =~= seq![pos]);
                    }
                    self.db.recs.push(TrigramRecord { trigram: tri, positions: ps, score: 0 });
                    proof {
                        let t = tseq[j as int];
                        let prev = add_tris_upto(old(self).db.model(), tseq, pos, j as int);
                        assert(prev == db0.model());
                        let n0 = db0.recs@.len() as int;
                        assert(self.db.recs@.len() == n0 + 1);
                        assert(self.db.recs@[n0].trigram@ == t);
                        assert(self.db.recs@[n0].positions@ == psv);
                        assert(self.db.recs@[n0].score == 0);
                        lemma_push_model(db0, self.db);
                        assert(!prev.contains_key(t));
                        assert(self.db.model() == prev.insert(
                            t,
                            EntryModel { positions: seq![pos], score: 0u32 },
                        ));
                        assert(add_tris_upto(old(self).db.model(), tseq, pos, j + 1) == prev.insert(
                            t,
                            EntryModel { positions: seq![pos], score: 0u32 },
                        ));
                    }
                },
            }
            j = j + 1;
        }
    }

    /// Add a phrase under a caller-chosen id.  The phrase is tokenized with
    /// `min_length` 1 and every trigram of every token is recorded.  An id
    /// already present is reported as `DuplicateId` and nothing changes.
    pub fn add_phrase(
        &mut self,
        phrase: &str,
        phrase_idx: usize,
        constraints: Option<&Vec<usize>>,
    ) -> (r: Result<(), DuplicateId>)
        requires
            old(self).wf(),
        ensures
            final(self).wf(),
            match r {
                Result::Err(_) => {
                    &&& old(self).phrases@.contains_key(phrase_idx)
                    &&& *final(self) == *old(self)
                },
                Result::Ok(_) => {
                    &&& !old(self).phrases@.contains_key(phrase_idx)
                    &&& final(self).phrases_model() == old(self).phrases_model().insert(
                        phrase_idx,
                        PhraseModel {
                            origin: phrase@,
                            tokens: spec_tokenize(phrase@, 1),
                            constraints: constraints_set(constraints),
                        },
                    )
                    &&& final(self).db_model() == add_tokens_upto(
                        old(self).db_model(),
                        spec_tokenize(phrase@, 1),
                        phrase_idx,
                        spec_tokenize(phrase@, 1).len() as int,
                    )
                },
            },
    {
        if self.phrases.contains_key(&phrase_idx) {
            return Err(DuplicateId);
        }
        let cons: Vec<usize> = match constraints {
            Some(v) => copy_ids(v),
            None => Vec::new(),
        };
        let toks = tokenize(phrase, 1);
        let ghost tokseq = spec_tokenize(phrase@, 1);
        let nk = toks.len();
        proof {
            assert(toks.deep_view().len() == nk);
        }
        let mut k: usize = 0;
        while k < nk
            invariant
                0 <= k <= nk,
                nk == toks@.len(),
                toks.deep_view() == tokseq,
                tokseq == spec_tokenize(phrase@, 1),
                self.db.wf(),
                self.db.model() == add_tokens_upto(old(self).db.model(), tokseq, phrase_idx, k as int),
                self.phrases == old(self).phrases,
            decreases nk - k,
        {
            proof {
                assert(toks.deep_view()[k as int] == toks@[k as int]@);
            }
            self.add_token(&toks[k], phrase_idx, k);
            k = k + 1;
        }
        let entry = PhraseEntry {
            idx: phrase_idx,
            origin: phrase.to_owned(),
            tokens: toks,
            constraints: cons,
        };
        proof {
            assert(entry.tokens.deep_view() == tokseq);
        }
        self.phrases.insert(phrase_idx, entry);
        proof {
            let phs1 = old(self).phrases@.insert(phrase_idx, entry);
            assert(self.phrases@ == phs1);
            lemma_db_ok_fresh_phrase(old(self).db.model(), old(self).phrases@, phrase_idx, entry);
            lemma_add_tokens_ok(
                old(self).db.model(),
                tokseq,
                phrase_idx,
                tokseq.len() as int,
                phs1,
            );
            assert(self.phrases_model() =~= old(self).phrases_model().insert(
                phrase_idx,
                PhraseModel {
                    origin: phrase@,
                    tokens: tokseq,
                    constraints: constraints_set(constraints),
                },
            )) by {
                assert(entry.model() == PhraseModel {
                    origin: phrase@,
                    tokens: tokseq,
                    constraints: constraints_set(constraints),
                }) by {
                    match constraints {
                        Some(v) => {
                            assert(entry.constraints@ == v@);
                        },
                        None => {
                            assert(entry.constraints@ =~= Seq::<usize>::empty());
                            assert(entry.constraints@.to_set() =~= Set::<usize>::empty());
                        },
                    }
                }
            }
        }
        Ok(())
    }
}

/// Scores are fixed-point fractions of this unit: a score of `SCORE_ONE`
/// would mean 1.0.
pub const SCORE_ONE: u32 = 1000000;

/// Internal fixed-point scale for the score curve.
pub const FP_ONE: u128 = 1048576;

/// Total number of stored positions over all trigram records.
pub open spec fn sum_counts(recs: Seq<TrigramRecord>) -> int
    decreases recs.len(),
{
    if recs.len() == 0 {
        0
    } else {
        sum_counts(recs.drop_last()) + recs.last().positions@.len()
    }
}

/// The largest number of positions of any one trigram record.
pub open spec fn max_count(recs: Seq<TrigramRecord>) -> int
    decreases recs.len(),
{
    if recs.len() == 0 {
        0
    } else {
        let m = max_count(recs.drop_last());
        if recs.last().positions@.len() > m {
            recs.last().positions@.len() as int
        } else {
            m
        }
    }
}

/// The selectivity score of a trigram occurring `c` times, where `sum` is
/// the total count over all `n` trigrams and `mx` the largest count.  This
/// is a fixed-point version of the curve
/// `0.5 + tanh(5 * (avg - c - 1) / mx) / 2` (with `avg = sum / n`), using a
/// rational approximation of `tanh` that is exact at the clamping points,
/// and clamped into the open interval `(0, SCORE_ONE)`: average counts land
/// near the middle, rare trigrams near the top, popular ones near the
/// bottom.
pub open spec fn score_of(c: int, sum: int, n: int, mx: int) -> int {
    let fp = FP_ONE as int;
    let avg_fp = sum * fp / n;
    let c1_fp = (c + 1) * fp;
    let xmag = if avg_fp >= c1_fp {
        5 * (avg_fp - c1_fp) / mx
    } else {
        5 * (c1_fp - avg_fp) / mx
    };
    let xc = if xmag > 3 * fp {
        3 * fp
    } else {
        xmag
    };
    let tm0 = xc * (27 * fp * fp + xc * xc) / (27 * fp * fp + 9 * xc * xc);
    let tm = if tm0 > fp {
        fp
    } else {
        tm0
    };
    let inner = if avg_fp >= c1_fp {
        fp + tm
    } else {
        fp - tm
    };
    let raw = (SCORE_ONE as int) * inner / (2 * fp);
    if raw < 1 {
        1
    } else if raw > SCORE_ONE - 1 {
        SCORE_ONE - 1
    } else {
        raw
    }
}

/// Fixed-point evaluation of the score curve.
fn trigram_score(c: u64, sum: u128, n: u64, mx: u64) -> (s: u32)
    requires
        n >= 1,
        mx >= 1,
        sum as int <= (n as int) * (mx as int),
    ensures
        s as int == score_of(c as int, sum as int, n as int, mx as int),
        0 < s < SCORE_ONE,
{
    let fp: u128 = FP_ONE;
    let nw: u128 = n as u128;
    let q: u128 = sum / nw;
    let r: u128 = sum % nw;
    proof {
        vstd::arithmetic::div_mod::lemma_fundamental_div_mod(sum as int, nw as int);
        assert(q as int <= mx as int) by (nonlinear_arith)
            requires
                sum as int == (nw as int) * (q as int) + (r as int),
                0 <= r as int,
                sum as int <= (n as int) * (mx as int),
                nw as int == n as int,
                n >= 1,
        ;
    }
    let avg_fp: u128 = q * fp + (r * fp) / nw;
    proof {
        let fpi = FP_ONE as int;
        assert((sum as int) * fpi / (nw as int) == (q as int) * fpi + (r as int) * fpi / (
        nw as int)) by {
            assert((sum as int) * fpi == (nw as int) * ((q as int) * fpi) + (r as int) * fpi)
                by (nonlinear_arith)
                requires
                    sum as int == (nw as int) * (q as int) + (r as int),
            ;
            vstd::arithmetic::div_mod::lemma_hoist_over_denominator(
                (r as int) * fpi,
                (q as int) * fpi,
                nw as nat,
            );
            assert(((q as int) * fpi) * (nw as int) == (nw as int) * ((q as int) * fpi))
                by (nonlinear_arith);
        }
        assert((r as int) * (FP_ONE as int) < u128::MAX as int) by (nonlinear_arith)
            requires
                0 <= r as int,
                (r as int) < (nw as int),
                nw as int <= 18446744073709551615,
                FP_ONE == 1048576u128,
        ;
        assert(fp == FP_ONE);
    }
    let c1_fp: u128 = (c as u128 + 1) * fp;
    let neg_side: bool = avg_fp < c1_fp;
    let diff: u128 = if neg_side {
        c1_fp - avg_fp
    } else {
        avg_fp - c1_fp
    };
    proof {
        assert(avg_fp as int <= (mx as int) * (FP_ONE as int) + FP_ONE as int) by (nonlinear_arith)
            requires
                avg_fp as int == (q as int) * (FP_ONE as int) + ((r as int) * (FP_ONE as int)) / (
                nw as int),
                q as int <= mx as int,
                0 <= (r as int) < (nw as int),
                nw as int >= 1,
        ;
    }
    let xmag: u128 = 5 * diff / (mx as u128);
    let xc: u128 = if xmag > 3 * fp {
        3 * fp
    } else {
        xmag
    };
    proof {
        assert(xc * xc <= 3 * FP_ONE * (3 * FP_ONE)) by (nonlinear_arith)
            requires
                0 <= xc as int <= 3 * FP_ONE as int,
        ;
        assert(xc * (27 * FP_ONE * FP_ONE + xc * xc) <= 3 * FP_ONE * (
        27 * FP_ONE * FP_ONE + 3 * FP_ONE * (3 * FP_ONE))) by (nonlinear_arith)
            requires
                0 <= xc as int <= 3 * FP_ONE as int,
        ;
    }
    let den: u128 = 27 * fp * fp + 9 * (xc * xc);
    let num: u128 = xc * (27 * fp * fp + xc * xc);
    let tm0: u128 = num / den;
    let tm: u128 = if tm0 > fp {
        fp
    } else {
        tm0
    };
    let inner: u128 = if neg_side {
        fp - tm
    } else {
        fp + tm
    };
    let raw: u128 = (SCORE_ONE as u128) * inner / (2 * fp);
    proof {
        let fpi = FP_ONE as int;
        assert(9 * ((xc as int) * (xc as int)) == 9 * (xc as int) * (xc as int))
            by (nonlinear_arith);
    }
    if raw < 1 {
        1
    } else if raw > (SCORE_ONE - 1) as u128 {
        SCORE_ONE - 1
    } else {
        raw as u32
    }
}

/// Relation between an unscored inverted index and its scored form.
pub open spec fn frozen_from(
    m0: Map<Seq<char>, EntryModel>,
    m1: Map<Seq<char>, EntryModel>,
    sum: int,
    n: int,
    mx: int,
) -> bool {
    &&& forall|t: Seq<char>| m1.contains_key(t) <==> m0.contains_key(t)
    &&& forall|t: Seq<char>|
        m0.contains_key(t) ==> (#[trigger] m1[t]).positions == m0[t].positions
    &&& forall|t: Seq<char>|
        m0.contains_key(t) ==> (#[trigger] m1[t]).score as int == score_of(
            m0[t].positions.len() as int,
            sum,
            n,
            mx,
        )
}

impl Indexer {
    /// Assign every trigram its selectivity score; everything else is
    /// untouched.
    pub(crate) fn freeze_scores(&mut self)
        requires
            old(self).wf(),
            old(self).db.recs@.len() >= 1,
        ensures
            final(self).wf(),
            final(self).phrases == old(self).phrases,
            frozen_from(
                old(self).db.model(),
                final(self).db.model(),
                sum_counts(old(self).db.recs@),
                old(self).db.recs@.len() as int,
                max_count(old(self).db.recs@),
            ),
            forall|t: Seq<char>|
                final(self).db.model().contains_key(t) ==> 0 < (
                #[trigger] final(self).db.model()[t]).score < SCORE_ONE,
    {
        let ghost recs0 = self.db.recs@;
        let n = self.db.recs.len();
        let mut sum: u128 = 0;
        let mut mx: u64 = 0;
        let mut i: usize = 0;
        proof {
            assert(recs0.take(0) =~= Seq::<TrigramRecord>::empty());
        }
        while i < n
            invariant
                0 <= i <= n,
                n == self.db.recs@.len(),
                recs0 == self.db.recs@,
                self.phrases == old(self).phrases,
                sum as int == sum_counts(recs0.take(i as int)),
                mx as int == max_count(recs0.take(i as int)),
                sum as int <= (i as int) * (mx as int),
                forall|k: int| 0 <= k < i ==> recs0[k].positions@.len() <= mx as int,
            decreases n - i,
        {
            let cnt: u64 = self.db.recs[i].positions.len() as u64;
            let mx2: u64 = if cnt > mx {
                cnt
            } else {
                mx
            };
            proof {
                assert(recs0.take(i + 1).drop_last() =~= recs0.take(i as int));
                assert(recs0.take(i + 1).last() == recs0[i as int]);
                assert(sum as int + cnt as int <= (i as int + 1) * (mx2 as int))
                    by (nonlinear_arith)
                    requires
                        sum as int <= (i as int) * (mx as int),
                        mx as int <= mx2 as int,
                        cnt as int <= mx2 as int,
                        i as int >= 0,
                        mx as int >= 0,
                ;
                assert((i as int + 1) * (mx2 as int) < u128::MAX as int) by (nonlinear_arith)
                    requires
                        0 <= i as int + 1 <= u64::MAX as int,
                        0 <= mx2 as int <= u64::MAX as int,
                ;
            }
            sum = sum + cnt as u128;
            mx = mx2;
            i = i + 1;
        }
        proof {
            assert(recs0.take(n as int) =~= recs0);
            assert(recs0[0].positions@.len() >= 1) by {
                self.db.lemma_at(0);
                assert(self.db.model()[recs0[0].trigram@].positions.len() >= 1);
            }
            assert(mx >= 1);
        }
        let ghost db0 = self.db;
        let ghost total = sum as int;
        let ghost nn = n as int;
        let ghost mxg = mx as int;
        let mut j: usize = 0;
        while j < n
            invariant
                0 <= j <= n,
                n == self.db.recs@.len(),
                n >= 1,
                db0.recs@ == recs0,
                recs0.len() == n,
                total == sum_counts(recs0),
                nn == n as int,
                mxg == mx as int,
                sum as int == total,
                mx >= 1,
                sum as int <= nn * mxg,
                self.phrases == old(self).phrases,
                self.db.wf(),
                db0.wf(),
                forall|k: int|
                    0 <= k < n ==> (#[trigger] self.db.recs@[k]).trigram@ == recs0[k].trigram@
                        && self.db.recs@[k].positions@ == recs0[k].positions@,
                forall|k: int|
                    0 <= k < j ==> (#[trigger] self.db.recs@[k]).score as int == score_of(
                        recs0[k].positions@.len() as int,
                        total,
                        nn,
                        mxg,
                    ) && 0 < self.db.recs@[k].score < SCORE_ONE,
                forall|k: int| j <= k < n ==> (#[trigger] self.db.recs@[k]).score == recs0[k].score,
            decreases n - j,
        {
            let cnt: u64 = self.db.recs[j].positions.len() as u64;
            let s = trigram_score(cnt, sum, n as u64, mx);
            let ghost dbp = self.db;
            {
                let rec = &mut self.db.recs[j];
                rec.score = s;
            }
            proof {
                lemma_update_model(dbp, self.db, j as int);
            }
            j = j + 1;
        }
        proof {
            let m0 = old(self).db.model();
            let m1 = self.db.model();
            assert forall|t: Seq<char>| m1.contains_key(t) <==> m0.contains_key(t) by {
                if db0.has(t) {
                    let k = db0.idx_of(t);
                    assert(self.db.recs@[k].trigram@ == t);
                }
                if self.db.has(t) {
                    let k = self.db.idx_of(t);
                    assert(db0.recs@[k].trigram@ == t);
                }
            }
            assert forall|t: Seq<char>| m0.contains_key(t) implies (#[trigger] m1[t]).positions
                == m0[t].positions && m1[t].score as int == score_of(
                m0[t].positions.len() as int,
                total,
                nn,
                mxg,
            ) && 0 < m1[t].score < SCORE_ONE by {
                let k = db0.idx_of(t);
                assert(0 <= k < recs0.len() && db0.recs@[k].trigram@ == t);
                db0.lemma_at(k);
                self.db.lemma_at(k);
            }
            assert(db_ok(m1, self.phrases@)) by {
                assert forall|t: Seq<char>, k: int|
                    m1.contains_key(t) && 0 <= k < m1[t].positions.len() implies pos_ok(
                    self.phrases@,
                    t,
                    #[trigger] m1[t].positions[k],
                ) by {
                    assert(m0.contains_key(t));
                    assert(m1[t].positions == m0[t].positions);
                    assert(pos_ok(self.phrases@, t, m0[t].positions[k]));
                }
            }
        }
    }
}

impl Default for Indexer {
    /// An empty index in the building state.
    fn default() -> (r: Self)
        ensures
            r.wf(),
            r.db_model() == Map::<Seq<char>, EntryModel>::empty(),
            r.phrases_model() == Map::<usize, PhraseModel>::empty(),
    {
        Indexer::new()
    }
}

} // verus!
