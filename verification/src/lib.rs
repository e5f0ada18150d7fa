//! Portable BLAKE2b compression core: the G mixing primitive, the round
//! function, single-block compression, and the multi-block driver loop that
//! folds an arbitrary-length input into a running chain value, honoring the
//! byte counter, finalization, and tree-mode last-node semantics.

pub mod consts;
pub mod laws;
pub mod model;
pub mod portable;
