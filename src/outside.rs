//! Contracts for the few calls this library makes outside itself.

use petgraph::algo::floyd_warshall;
use petgraph::graph::{NodeIndex, UnGraph};
use rand::rngs::SmallRng;
use rand::seq::IteratorRandom;
use rand::SeedableRng;
use vstd::prelude::*;

use crate::grid::RoomGraph;
use crate::model::Disposition;
use crate::paths::{connected, is_distance};
use crate::spawn::passage_cost;

verus! {

/// Relies on `RangeInclusive::start`: it hands back the lower bound that the
/// range was built with.
pub assume_specification<Idx>[ core::ops::RangeInclusive::<Idx>::start ](
    r: &core::ops::RangeInclusive<Idx>,
) -> (s: &Idx)
    ensures
        *s == r@.start,
;

/// Relies on `RangeInclusive::end`: it hands back the upper bound that the
/// range was built with.
pub assume_specification<Idx>[ core::ops::RangeInclusive::<Idx>::end ](
    r: &core::ops::RangeInclusive<Idx>,
) -> (e: &Idx)
    ensures
        *e == r@.end,
;

/// rand's small, fast generator, carried through opaque.
#[verifier::external_type_specification]
#[verifier::external_body]
pub struct ExSmallRng(SmallRng);

/// Relies on `SeedableRng::seed_from_u64` for rand's `SmallRng`: a fresh
/// generator. Nothing is claimed of what it will draw.
#[verifier::external_body]
pub(crate) fn seeded_rng(seed: u64) -> SmallRng {
    SmallRng::seed_from_u64(seed)
}

/// Relies on `IteratorRandom::choose`: on a non-empty range `0..n` it returns
/// one of the range's items.
#[verifier::external_body]
pub(crate) fn choose_below(rng: &mut SmallRng, n: usize) -> (i: usize)
    requires
        0 < n,
    ensures
        i < n,
{
    (0..n).choose(rng).unwrap()
}

/// Relies on petgraph's `floyd_warshall`, run on an undirected graph with
/// `g`'s rooms as nodes and `g`'s edges, weighted by `passage_cost`. Entry
/// `[i][j]` is the length of a shortest walk from room `i` to room `j`
/// through open passages, or `u32::MAX` where there is none: petgraph
/// starts every pair at `u32::MAX` and skips any sum that overflows, so a
/// wall that stands is never crossed. The grid has no loops and no parallel
/// edges, and its distances stay far below `u32::MAX`.
#[verifier::external_body]
pub(crate) fn all_pairs_distances(g: &RoomGraph) -> (d: Vec<Vec<u32>>)
    requires
        g.wf(),
    ensures
        d@.len() == g.num_rooms(),
        forall|i: int| 0 <= i < d@.len() ==> #[trigger] d@[i]@.len() == g.num_rooms(),
        forall|i: int, j: int|
            0 <= i < g.num_rooms() && 0 <= j < g.num_rooms() && #[trigger] connected(
                g.edges@,
                i,
                j,
            ) ==> is_distance(g.edges@, i, j, d@[i]@[j] as int),
        forall|i: int, j: int|
            0 <= i < g.num_rooms() && 0 <= j < g.num_rooms() && !#[trigger] connected(
                g.edges@,
                i,
                j,
            ) ==> d@[i]@[j] == u32::MAX,
{
    let n = g.rooms.len();
    let mut pg = UnGraph::<(), Disposition>::with_capacity(n, g.edges.len());
    for _ in 0..n {
        pg.add_node(());
    }
    for ed in g.edges.iter() {
        pg.add_edge(NodeIndex::new(ed.low), NodeIndex::new(ed.high), ed.wall.disposition);
    }
    let m = floyd_warshall(&pg, |er| passage_cost(*er.weight())).unwrap();
    (0..n).map(|i| (0..n).map(|j| m[&(NodeIndex::new(i), NodeIndex::new(j))]).collect()).collect()
}

} // verus!
