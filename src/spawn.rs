//! Choosing the two rooms that lie farthest apart along the passages.

use vstd::prelude::*;

use crate::grid::RoomGraph;
use crate::model::{Disposition, Room, SpawnPositions};
use crate::outside::all_pairs_distances;
use crate::paths::{connected, is_distance, walk_between};
use crate::carve::is_spanning_tree;

verus! {

/// The cost of crossing a wall in the shortest-path search: one step
/// through an open passage, and `u32::MAX`, which the search never adds
/// onto, through any other wall.
pub fn passage_cost(d: Disposition) -> (c: u32)
    ensures
        d == Disposition::Absent ==> c == 1,
        d != Disposition::Absent ==> c == u32::MAX,
{
    match d {
        Disposition::Absent => 1,
        _ => u32::MAX,
    }
}

/// `(i, j)` comes before `(a, b)` in lexicographic order.
pub open spec fn pair_before(i: int, j: int, a: int, b: int) -> bool {
    i < a || (i == a && j < b)
}

/// The entry of largest value in a square table, the first such in
/// row-major order.
pub fn farthest_pair(d: &Vec<Vec<u32>>) -> (p: (usize, usize))
    requires
        d@.len() >= 1,
        forall|i: int| 0 <= i < d@.len() ==> #[trigger] d@[i]@.len() == d@.len(),
    ensures
        p.0 < d@.len(),
        p.1 < d@.len(),
        forall|i: int, j: int|
            0 <= i < d@.len() && 0 <= j < d@.len() ==> #[trigger] d@[i]@[j] <= d@[p.0 as int]@[p.1 as int],
        forall|i: int, j: int|
            0 <= i < d@.len() && 0 <= j < d@.len() && pair_before(i, j, p.0 as int, p.1 as int)
                ==> #[trigger] d@[i]@[j] < d@[p.0 as int]@[p.1 as int],
{
    let n = d.len();
    let mut best: (usize, usize) = (0, 0);
    let mut best_value: u32 = d[0][0];
    let mut i: usize = 0;
    while i < n
        invariant
            n == d@.len(),
            forall|r: int| 0 <= r < d@.len() ==> #[trigger] d@[r]@.len() == d@.len(),
            i <= n,
            best.0 < n && best.1 < n,
            best_value == d@[best.0 as int]@[best.1 as int],
            best.0 < i || (best.0 == 0 && best.1 == 0),
            forall|a: int, b: int| 0 <= a < i && 0 <= b < n ==> #[trigger] d@[a]@[b] <= best_value,
            forall|a: int, b: int|
                0 <= a < i && 0 <= b < n && pair_before(a, b, best.0 as int, best.1 as int)
                    ==> #[trigger] d@[a]@[b] < best_value,
        decreases n - i,
    {
        let row = &d[i];
        let mut j: usize = 0;
        while j < n
            invariant
                n == d@.len(),
                forall|r: int| 0 <= r < d@.len() ==> #[trigger] d@[r]@.len() == d@.len(),
                i < n,
                j <= n,
                row@ == d@[i as int]@,
                best.0 < n && best.1 < n,
                best_value == d@[best.0 as int]@[best.1 as int],
                best.0 < i || (best.0 == i && best.1 < j) || (best.0 == 0 && best.1 == 0),
                forall|a: int, b: int| 0 <= a < i && 0 <= b < n ==> #[trigger] d@[a]@[b] <= best_value,
                forall|b: int| 0 <= b < j ==> #[trigger] d@[i as int]@[b] <= best_value,
                forall|a: int, b: int|
                    0 <= a < i && 0 <= b < n && pair_before(a, b, best.0 as int, best.1 as int)
                        ==> #[trigger] d@[a]@[b] < best_value,
                forall|b: int|
                    0 <= b < j && pair_before(i as int, b, best.0 as int, best.1 as int)
                        ==> #[trigger] d@[i as int]@[b] < best_value,
            decreases n - j,
        {
            if row[j] > best_value {
                best = (i, j);
                best_value = row[j];
            }
            j = j + 1;
        }
        i = i + 1;
    }
    best
}

/// The index of room `r` in `g`'s rooms.
pub open spec fn room_index(g: RoomGraph, r: Room) -> int {
    (r.west_edge - g.x_min) * g.depth() + (r.south_edge - g.z_min)
}

/// `sp` names two rooms of `g` that are farthest apart along open
/// passages, and of all such pairs the first in the order of the rooms,
/// which is the lexicographic order of their coordinates.
pub open spec fn farthest_apart(g: RoomGraph, sp: SpawnPositions) -> bool {
    let s = room_index(g, sp.start);
    let t = room_index(g, sp.goal);
    &&& 0 <= s < g.num_rooms()
    &&& 0 <= t < g.num_rooms()
    &&& g.rooms@[s] == sp.start
    &&& g.rooms@[t] == sp.goal
    &&& forall|a: int, b: int, da: int, dst: int|
        0 <= a < g.num_rooms() && 0 <= b < g.num_rooms() && #[trigger] is_distance(
            g.edges@,
            a,
            b,
            da,
        ) && #[trigger] is_distance(g.edges@, s, t, dst) ==> da <= dst
    &&& forall|a: int, b: int, da: int, dst: int|
        0 <= a < g.num_rooms() && 0 <= b < g.num_rooms() && pair_before(a, b, s, t)
            && #[trigger] is_distance(g.edges@, a, b, da) && #[trigger] is_distance(
            g.edges@,
            s,
            t,
            dst,
        ) ==> da < dst
}

/// Shortest distances are unique.
pub proof fn lemma_distance_unique(edges: Seq<crate::model::InteriorEdge>, a: int, b: int, d1: int, d2: int)
    requires
        is_distance(edges, a, b, d1),
        is_distance(edges, a, b, d2),
    ensures
        d1 == d2,
{
    let w1 = choose|w: Seq<int>| walk_between(edges, w, a, b) && w.len() - 1 == d1;
    let w2 = choose|w: Seq<int>| walk_between(edges, w, a, b) && w.len() - 1 == d2;
    assert(w1.len() - 1 >= d2);
    assert(w2.len() - 1 >= d1);
}

/// Rooms joined by a walk have a shortest distance.
pub proof fn lemma_distance_exists(edges: Seq<crate::model::InteriorEdge>, a: int, b: int, w: Seq<int>)
    requires
        walk_between(edges, w, a, b),
    ensures
        exists|d: int| is_distance(edges, a, b, d),
    decreases w.len(),
{
    if forall|v: Seq<int>| walk_between(edges, v, a, b) ==> v.len() >= w.len() {
        assert(is_distance(edges, a, b, w.len() - 1));
    } else {
        let v = choose|v: Seq<int>| walk_between(edges, v, a, b) && v.len() < w.len();
        lemma_distance_exists(edges, a, b, v);
    }
}

/// On a spanning tree, the farthest pair with its tie-break is unique.
pub proof fn lemma_farthest_unique(g: RoomGraph, sp1: SpawnPositions, sp2: SpawnPositions)
    requires
        g.wf(),
        is_spanning_tree(g),
        farthest_apart(g, sp1),
        farthest_apart(g, sp2),
    ensures
        sp1 == sp2,
{
    let (s1, t1) = (room_index(g, sp1.start), room_index(g, sp1.goal));
    let (s2, t2) = (room_index(g, sp2.start), room_index(g, sp2.goal));
    assert(connected(g.edges@, s1, t1));
    assert(connected(g.edges@, s2, t2));
    let w1 = choose|w: Seq<int>| walk_between(g.edges@, w, s1, t1);
    let w2 = choose|w: Seq<int>| walk_between(g.edges@, w, s2, t2);
    lemma_distance_exists(g.edges@, s1, t1, w1);
    lemma_distance_exists(g.edges@, s2, t2, w2);
    let d1 = choose|d: int| is_distance(g.edges@, s1, t1, d);
    let d2 = choose|d: int| is_distance(g.edges@, s2, t2, d);
    assert(d1 <= d2 && d2 <= d1);
    if pair_before(s1, t1, s2, t2) {
        assert(d1 < d2);
    } else if pair_before(s2, t2, s1, t1) {
        assert(d2 < d1);
    }
    assert(s1 == s2 && t1 == t2);
}

/// The start and goal rooms: the two rooms of the carved maze farthest
/// apart along its passages.
pub fn choose_spawn_positions(g: &RoomGraph) -> (sp: SpawnPositions)
    requires
        g.wf(),
        is_spanning_tree(*g),
    ensures
        farthest_apart(*g, sp),
{
    let d = all_pairs_distances(g);
    let (s, t) = farthest_pair(&d);
    let sp = SpawnPositions { start: g.rooms[s], goal: g.rooms[t] };
    proof {
        let n = g.num_rooms();
        assert(g.room_placed(s as int));
        assert(g.room_placed(t as int));
        assert forall|a: int, b: int, da: int, dst: int|
            0 <= a < n && 0 <= b < n && #[trigger] is_distance(g.edges@, a, b, da)
                && #[trigger] is_distance(g.edges@, s as int, t as int, dst) implies da <= dst by {
            assert(connected(g.edges@, a, b));
            assert(connected(g.edges@, s as int, t as int));
            lemma_distance_unique(g.edges@, a, b, da, d@[a]@[b] as int);
            lemma_distance_unique(g.edges@, s as int, t as int, dst, d@[s as int]@[t as int] as int);
            assert(d@[a]@[b] <= d@[s as int]@[t as int]);
        }
        assert forall|a: int, b: int, da: int, dst: int|
            0 <= a < n && 0 <= b < n && pair_before(a, b, s as int, t as int)
                && #[trigger] is_distance(g.edges@, a, b, da) && #[trigger] is_distance(
                g.edges@,
                s as int,
                t as int,
                dst,
            ) implies da < dst by {
            assert(connected(g.edges@, a, b));
            assert(connected(g.edges@, s as int, t as int));
            lemma_distance_unique(g.edges@, a, b, da, d@[a]@[b] as int);
            lemma_distance_unique(g.edges@, s as int, t as int, dst, d@[s as int]@[t as int] as int);
            assert(d@[a]@[b] < d@[s as int]@[t as int]);
        }
    }
    sp
}

} // verus!
