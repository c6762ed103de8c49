//! Search for groups of words whose letter sets are pairwise disjoint.
//!
//! Words are reduced to fingerprints (one bit per letter), grouped into
//! anagram classes, and a backtracking search enumerates every tuple of
//! mutually disjoint fingerprints.
use vstd::prelude::*;

pub mod codec;
pub mod search;
pub mod dictionary;
pub mod index;
pub mod expand;
