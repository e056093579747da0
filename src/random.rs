//! Random dense graphs, for exercising the two algorithms.
use vstd::prelude::*;
use rand::Rng;
use crate::graph::{is_square, rows};

verus! {

/// Relies on `rand::thread_rng` and `Rng::gen_range`: a value drawn from
/// `lo..hi`, a range that `gen_range` refuses, by panicking, when empty.
#[verifier::external_body]
fn random_in(lo: usize, hi: usize) -> (r: usize)
    requires
        lo < hi,
    ensures
        lo <= r < hi,
{
    rand::thread_rng().gen_range(lo..hi)
}

/// Least value that `generate_rand_number` draws.
pub const MIN_RANDOM: usize = 10;

/// A random number in `10..max_value`.
pub fn generate_rand_number(max_value: usize) -> (r: usize)
    requires
        MIN_RANDOM < max_value,
    ensures
        MIN_RANDOM <= r < max_value,
{
    random_in(MIN_RANDOM, max_value)
}

/// A `vertices x vertices` matrix of random weights, each in `10..max_value`.
pub fn generate_graph(vertices: usize, max_value: usize) -> (g: Vec<Vec<usize>>)
    requires
        MIN_RANDOM < max_value,
    ensures
        is_square(rows(g@), vertices as int),
        forall|i: int, j: int|
            0 <= i < vertices && 0 <= j < vertices ==> MIN_RANDOM <= #[trigger] rows(g@)[i][j]
                < max_value,
{
    let mut graph: Vec<Vec<usize>> = Vec::new();
    let mut i: usize = 0;
    while i < vertices
        invariant
            i <= vertices,
            MIN_RANDOM < max_value,
            graph@.len() == i,
            forall|k: int| 0 <= k < i ==> #[trigger] graph@[k]@.len() == vertices,
            forall|k: int, j: int|
                0 <= k < i && 0 <= j < vertices ==> MIN_RANDOM <= #[trigger] graph@[k]@[j] < max_value,
        decreases vertices - i,
    {
        let mut row: Vec<usize> = Vec::new();
        let mut j: usize = 0;
        while j < vertices
            invariant
                j <= vertices,
                MIN_RANDOM < max_value,
                row@.len() == j,
                forall|c: int| 0 <= c < j ==> MIN_RANDOM <= #[trigger] row@[c] < max_value,
            decreases vertices - j,
        {
            row.push(generate_rand_number(max_value));
            j = j + 1;
        }
        graph.push(row);
        i = i + 1;
    }
    proof {
        assert forall|k: int| 0 <= k < vertices implies #[trigger] rows(graph@)[k].len() == vertices by {
            assert(rows(graph@)[k] == graph@[k]@);
        }
        assert forall|k: int, j: int| 0 <= k < vertices && 0 <= j < vertices implies MIN_RANDOM
            <= #[trigger] rows(graph@)[k][j] < max_value by {
            assert(rows(graph@)[k] == graph@[k]@);
        }
    }
    graph
}

} // verus!
