//! Query description: one must token, optional should tokens, and the
//! filtering and ranking options.

use vstd::prelude::*;
use crate::utils::{byte_len, spec_tokenize, tokenize};

verus! {

/// Scan cutoffs are given in thousandths: `cutoff * max_score / 1000`.
pub const CUTOFF_UNIT: u32 = 1000;

/// An immutable search request.  Built with `new` and refined with the
/// builder-style setters.
#[derive(Debug)]
pub struct Query {
    /// Token that must match a token of the phrase within `max_distance`.
    pub must: String,
    /// Tokens that raise a matching phrase's rank.
    pub should: Vec<String>,
    /// If set, only phrases carrying this constraint are returned.
    pub constraint: Option<usize>,
    /// Cap on the number of results; unset means unbounded.
    pub limit: Option<usize>,
    /// Largest accepted edit distance for the must token; unset means any.
    pub max_distance: Option<usize>,
    /// Early-break factor on the total trigram score, in thousandths of the
    /// heatmap's best total.
    pub scan_cutoff: u32,
}

/// Index of the first token of maximal byte length among the first `k`.
pub open spec fn best_token_upto(toks: Seq<Seq<char>>, k: int) -> int
    decreases k,
{
    if k <= 1 {
        0
    } else {
        let b = best_token_upto(toks, k - 1);
        if byte_len(toks[k - 1]) > byte_len(toks[b]) {
            k - 1
        } else {
            b
        }
    }
}

proof fn lemma_best_token_range(toks: Seq<Seq<char>>, k: int)
    requires
        k >= 1,
    ensures
        0 <= best_token_upto(toks, k) < k,
    decreases k,
{
    if k > 1 {
        lemma_best_token_range(toks, k - 1);
    }
}

/// The must token a query gets for a given `must` argument: the argument
/// itself, unless it splits into several tokens; then the first longest
/// token (by bytes) is the must token and the others become should tokens.
pub open spec fn spec_query_must(must: Seq<char>) -> Seq<char> {
    let toks = spec_tokenize(must, 1);
    if toks.len() > 1 {
        toks[best_token_upto(toks, toks.len() as int)]
    } else {
        must
    }
}

/// The should tokens a query gets: the ones given, then any tokens of a
/// multi-token `must` argument that did not become the must token, in order.
pub open spec fn spec_query_should(must: Seq<char>, should: Seq<Seq<char>>) -> Seq<Seq<char>> {
    let toks = spec_tokenize(must, 1);
    if toks.len() > 1 {
        should + toks.remove(best_token_upto(toks, toks.len() as int))
    } else {
        should
    }
}

impl Query {
    /// Create a query with the given must and should tokens and the default
    /// options: no constraint, no limit, a largest distance of 2, and a scan
    /// cutoff of 0.3 (300 thousandths).
    pub fn new(must: &str, should: &[&str]) -> (r: Query)
        ensures
            r.must@ == spec_query_must(must@),
            r.should.deep_view() == spec_query_should(must@, should.deep_view()),
            r.constraint is None,
            r.limit is None,
            r.max_distance == Some(2usize),
            r.scan_cutoff == 300u32,
    {
        let mut should_tokens: Vec<String> = Vec::new();
        let ns = should.len();
        let mut i: usize = 0;
        while i < ns
            invariant
                0 <= i <= ns,
                ns == should@.len(),
                should_tokens.deep_view() =~= should.deep_view().take(i as int),
            decreases ns - i,
        {
            let ghost sd0 = should_tokens.deep_view();
            should_tokens.push(should[i].to_owned());
            proof {
                assert(should_tokens.deep_view() =~= sd0.push(should@[i as int]@)) by {
                    assert(forall|k: int|
                        0 <= k < should_tokens@.len() ==> should_tokens.deep_view()[k]
                            == should_tokens@[k]@);
                }
                assert(should.deep_view().take(i + 1) =~= should.deep_view().take(i as int).push(
                    should.deep_view()[i as int],
                ));
                assert(should.deep_view()[i as int] == should@[i as int]@);
            }
            i = i + 1;
        }
        proof {
            assert(should.deep_view().take(ns as int) =~= should.deep_view());
        }
        let mut toks = tokenize(must, 1);
        let ghost tseq = spec_tokenize(must@, 1);
        let nt = toks.len();
        proof {
            assert(toks.deep_view().len() == nt);
        }
        let must_token: String;
        if nt > 1 {
            let mut best: usize = 0;
            let mut best_len: usize = toks[0].as_str().as_bytes().len();
            let mut j: usize = 1;
            proof {
                assert(toks.deep_view()[0] == toks@[0]@);
            }
            while j < nt
                invariant
                    1 <= j <= nt,
                    nt == toks@.len(),
                    toks.deep_view() == tseq,
                    0 <= best < j,
                    best as int == best_token_upto(tseq, j as int),
                    best_len == byte_len(tseq[best as int]),
                decreases nt - j,
            {
                proof {
                    assert(toks.deep_view()[j as int] == toks@[j as int]@);
                }
                let l = toks[j].as_str().as_bytes().len();
                if l > best_len {
                    best = j;
                    best_len = l;
                }
                j = j + 1;
            }
            must_token = toks.remove(best);
            proof {
                assert(must_token@ == tseq[best as int]);
                let rest = tseq.remove(best as int);
                assert(toks.deep_view() =~= rest) by {
                    assert(forall|k: int|
                        0 <= k < toks@.len() ==> toks.deep_view()[k] == toks@[k]@);
                }
            }
            let nr = toks.len();
            let mut k: usize = 0;
            while k < nr
                invariant
                    0 <= k <= nr,
                    nr == toks@.len(),
                    toks.deep_view() == tseq.remove(best_token_upto(tseq, tseq.len() as int)),
                    should_tokens.deep_view() =~= should.deep_view() + toks.deep_view().take(
                        k as int,
                    ),
                decreases nr - k,
            {
                let ghost sd0 = should_tokens.deep_view();
                should_tokens.push(toks[k].clone());
                proof {
                    assert(should_tokens.deep_view() =~= sd0.push(toks@[k as int]@)) by {
                        assert(forall|k2: int|
                            0 <= k2 < should_tokens@.len() ==> should_tokens.deep_view()[k2]
                                == should_tokens@[k2]@);
                    }
                    assert(toks.deep_view()[k as int] == toks@[k as int]@);
                    assert(toks.deep_view().take(k + 1) =~= toks.deep_view().take(k as int).push(
                        toks.deep_view()[k as int],
                    ));
                }
                k = k + 1;
            }
            proof {
                assert(toks.deep_view().take(nr as int) =~= toks.deep_view());
                assert(should_tokens.deep_view() =~= spec_query_should(must@, should.deep_view()));
            }
        } else {
            must_token = must.to_owned();
            proof {
                assert(should_tokens.deep_view() =~= spec_query_should(must@, should.deep_view()));
            }
        }
        Query {
            must: must_token,
            should: should_tokens,
            constraint: None,
            limit: None,
            max_distance: Some(2),
            scan_cutoff: 300,
        }
    }

    /// Restrict results to phrases carrying this constraint.
    pub fn constraint(self, constraint: Option<usize>) -> (r: Self)
        ensures
            r == (Query { constraint, ..self }),
    {
        Query { constraint, ..self }
    }

    /// Set the largest accepted edit distance; `None` accepts any distance.
    pub fn max_distance(self, max_distance: Option<usize>) -> (r: Self)
        ensures
            r == (Query { max_distance, ..self }),
    {
        Query { max_distance, ..self }
    }

    /// Cap the number of returned results.
    pub fn limit(self, limit: Option<usize>) -> (r: Self)
        ensures
            r == (Query { limit, ..self }),
    {
        Query { limit, ..self }
    }

    /// Set the early-break factor, in thousandths of the best total score.
    pub fn scan_cutoff(self, cutoff: u32) -> (r: Self)
        ensures
            r == (Query { scan_cutoff: cutoff, ..self }),
    {
        Query { scan_cutoff: cutoff, ..self }
    }
}

} // verus!
