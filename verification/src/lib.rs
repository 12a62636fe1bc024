//! A graph-decomposition engine: an adjacency-list multigraph with stable edge
//! identities, a depth-first traversal context, and the structural
//! decompositions derived from it, with what they make of cycles and paths.
//!
//! Beside the engine stand the tools of the programs that use it: readers
//! and writers of numbers, big numbers and fractions, rings, polynomials and
//! formal power series, bit sets, truth tables and circuits, Hamming and
//! Huffman codes, Horn formulas, combinatorial objects listed in order, and
//! trees with their Prüfer codes.

pub mod bigint;
pub mod bits;
pub mod blocks;
pub mod bridges;
pub mod construct;
pub mod comb;
pub mod components;
pub mod condense;
pub mod counting;
pub mod cutglue;
pub mod cutpoints;
pub mod cuttree;
pub mod decomposition;
pub mod edgeblocks;
pub mod families;
pub mod dfs;
pub mod flat;
pub mod formal_series;
pub mod graph;
pub mod grouping;
pub mod hamming;
pub mod horn;
pub mod huffman;
pub mod parts;
pub mod polynomial;
pub mod prufer;
pub mod rational;
pub mod reader;
pub mod ring;
pub mod scanner;
pub mod scheme;
pub mod timing;
pub mod topsort;
pub mod transform;
pub mod undirected;
pub mod vectors;
pub mod walks;
pub mod writer;

use vstd::prelude::*;

verus! {

/// Returns the two arguments in ascending order.
pub fn minmax(a: usize, b: usize) -> (r: (usize, usize))
    ensures
        r.0 <= r.1,
        (r.0 == a && r.1 == b) || (r.0 == b && r.1 == a),
{
    if a <= b {
        (a, b)
    } else {
        (b, a)
    }
}

} // verus!
