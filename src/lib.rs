//! Exhaustive search over lines and boards of the Tango puzzle: packed
//! six-cell lines and their rules, a backtracking line solver, the catalogs
//! of ambiguous and fixed lines, the column-optimized remap that turns prefix
//! tests into sorted-array probes, and the row-by-row board generator.

use vstd::prelude::*;

pub mod line;
pub mod solver;
pub mod catalog;
pub mod remap;
pub mod generator;
pub mod grid;
pub mod trie;

verus! {

} // verus!
