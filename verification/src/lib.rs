//! FuzzDex: an in-memory fuzzy phrase index.
//!
//! Phrases are split into tokens and tokens into trigrams; a frozen index
//! answers queries of the form "find phrases whose primary token fuzzy-matches
//! X", ranked by trigram rarity scores, an optional edit-distance bound and
//! secondary ("should") tokens.

use vstd::prelude::*;

pub mod unicode;
pub mod utils;
pub mod levenshtein;
pub mod indexer;
pub mod heatmap;
pub mod query;
pub mod cache;
pub mod ranking;
pub mod seeker;
pub mod laws;

use crate::indexer::{add_tokens_upto, Indexer};
use crate::query::Query;
use crate::seeker::{results_model, spec_search, CacheStats, Index, SearchResult};
use crate::utils::spec_tokenize;

verus! {

/// Why a call on the state wrapper was refused.
#[derive(Debug, Clone, Copy, PartialEq, Eq, Structural)]
pub enum FuzzDexError {
    /// The phrase id is already present.
    DuplicateId,
    /// The call does not fit the current state, or the cache capacity was
    /// zero.
    WrongState,
}

/// The index in either of its two lifecycle states: building, then frozen.
/// Freezing is a one-way transition.
pub enum FuzzDex {
    /// Still being built: phrases can be added, searching is refused.
    Indexer(Indexer),
    /// Frozen: searchable, adding phrases is refused.
    Index(Index),
}

impl FuzzDex {
    pub open spec fn wf(self) -> bool {
        match self {
            FuzzDex::Indexer(ix) => ix.wf(),
            FuzzDex::Index(ix) => ix.wf(),
        }
    }

    /// A fresh, empty index in the building state.
    pub fn new() -> (r: FuzzDex)
        ensures
            r.wf(),
            r matches FuzzDex::Indexer(ix) && ix.phrases_model() =~= Map::empty()
                && ix.db_model() =~= Map::empty(),
    {
        FuzzDex::Indexer(Indexer::new())
    }

    /// Add a phrase while building; refused with `WrongState` once frozen
    /// and with `DuplicateId` when the id is taken (then nothing changes).
    pub fn add_phrase(
        &mut self,
        phrase: &str,
        phrase_idx: usize,
        constraints: Option<&Vec<usize>>,
    ) -> (r: Result<(), FuzzDexError>)
        requires
            old(self).wf(),
        ensures
            final(self).wf(),
            *old(self) matches FuzzDex::Index(_) ==> r == Err::<(), FuzzDexError>(
                FuzzDexError::WrongState,
            ) && *final(self) == *old(self),
            *old(self) matches FuzzDex::Indexer(ix0) ==> match r {
                Ok(_) => {
                    &&& !ix0.phrases@.contains_key(phrase_idx)
                    &&& *final(self) matches FuzzDex::Indexer(ix1) && ix1.phrases_model()
                        == ix0.phrases_model().insert(
                        phrase_idx,
                        crate::indexer::PhraseModel {
                            origin: phrase@,
                            tokens: spec_tokenize(phrase@, 1),
                            constraints: crate::indexer::constraints_set(constraints),
                        },
                    ) && ix1.db_model() == add_tokens_upto(
                        ix0.db_model(),
                        spec_tokenize(phrase@, 1),
                        phrase_idx,
                        spec_tokenize(phrase@, 1).len() as int,
                    )
                },
                Err(e) => {
                    &&& e == FuzzDexError::DuplicateId
                    &&& ix0.phrases@.contains_key(phrase_idx)
                    &&& *final(self) == *old(self)
                },
            },
    {
        match self {
            FuzzDex::Indexer(ix) => {
                match ix.add_phrase(phrase, phrase_idx, constraints) {
                    Ok(_) => Ok(()),
                    Err(_) => Err(FuzzDexError::DuplicateId),
                }
            },
            FuzzDex::Index(_) => Err(FuzzDexError::WrongState),
        }
    }

    /// Freeze the index with the given cache capacity (2000 when absent).
    /// Freezing twice, or a capacity of zero, is refused with `WrongState`.
    pub fn finish(&mut self, cache_size: Option<usize>) -> (r: Result<(), FuzzDexError>)
        requires
            old(self).wf(),
        ensures
            final(self).wf(),
            r matches Err(e) ==> e == FuzzDexError::WrongState && *final(self) == *old(self),
            r is Err <==> (*old(self) matches FuzzDex::Index(_) || cache_size == Some(0usize)),
            r is Ok ==> *final(self) matches FuzzDex::Index(_),
            *old(self) matches FuzzDex::Indexer(ix0) ==> (r is Ok ==> ((*final(self)) matches FuzzDex::Index(ix1) && ix1.index.phrases == ix0.phrases)),
    {
        let cs: usize = match cache_size {
            Some(c) => c,
            None => 2000,
        };
        if cs == 0 {
            return Err(FuzzDexError::WrongState);
        }
        match self {
            FuzzDex::Index(_) => {
                return Err(FuzzDexError::WrongState);
            },
            FuzzDex::Indexer(_) => {},
        }
        let mut tmp = FuzzDex::Indexer(Indexer::new());
        core::mem::swap(self, &mut tmp);
        match tmp {
            FuzzDex::Indexer(ix) => {
                *self = FuzzDex::Index(ix.finish_with_cache(cs));
                Ok(())
            },
            FuzzDex::Index(_) => {
                proof {
                    assert(false);
                }
                vstd::pervasive::unreached()
            },
        }
    }

    /// Search the frozen index; while building the call is refused.
    pub fn search(&mut self, query: &Query) -> (r: Result<Vec<SearchResult>, FuzzDexError>)
        requires
            old(self).wf(),
        ensures
            final(self).wf(),
            *old(self) matches FuzzDex::Indexer(_) ==> r == Err::<Vec<SearchResult>, FuzzDexError>(
                FuzzDexError::WrongState,
            ) && *final(self) == *old(self),
            *old(self) matches FuzzDex::Index(ix0) ==> (r matches Ok(v) && results_model(v@)
                == spec_search(ix0.index.db_model(), ix0.index.phrases@, *query)
                && ((*final(self)) matches FuzzDex::Index(ix1) && ix1.index == ix0.index)),
    {
        match self {
            FuzzDex::Index(ix) => Ok(ix.search(query)),
            FuzzDex::Indexer(_) => Err(FuzzDexError::WrongState),
        }
    }

    /// Read the cache counters of the frozen index; while building the call
    /// is refused.
    pub fn cache_stats(&self) -> (r: Result<CacheStats, FuzzDexError>)
        ensures
            *self matches FuzzDex::Indexer(_) ==> r is Err,
            *self matches FuzzDex::Index(ix) ==> r matches Ok(st) && st.hits == ix.cache.hits
                && st.misses == ix.cache.misses && st.inserts == ix.cache.inserts,
    {
        match self {
            FuzzDex::Index(ix) => Ok(ix.cache_stats()),
            FuzzDex::Indexer(_) => Err(FuzzDexError::WrongState),
        }
    }
}

} // verus!
