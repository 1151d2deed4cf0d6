//! Minimal complete circular sparse rulers: the model, the enumeration of the
//! search space, the search itself and the bookkeeping around it.
#![allow(unused_imports)]

pub mod bitset;
pub mod bytes;
pub mod campaign;
pub mod clock;
pub mod combinatorics;
pub mod completeness;
pub mod format;
pub mod gpu;
pub mod laws;
pub mod lower_bound;
pub mod range_search;
pub mod ranking;
pub mod ruler;
pub mod session;
pub mod sorting;
pub mod state;
pub mod successor;
pub mod symmetry;
