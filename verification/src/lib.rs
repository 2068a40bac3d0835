//! Ranking, filtering and slate-selection logic of the For You home mixer:
//! the language lock, the score order, the in-network quota, the optimal
//! post-to-slot order, semantic-id diversity counts, post similarity, and the
//! debug trace of a served slate.

pub mod candidate;
pub mod debug;
pub mod diversity;
pub mod hungarian;
pub mod language;
pub mod mmr;
pub mod ordering;
pub mod quota;
pub mod signals;
pub mod similarity;
pub mod slate;
