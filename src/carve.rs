//! The randomized spanning-tree carver.

use core::ops::RangeInclusive;
use vstd::prelude::*;

use crate::grid::{build_room_graph, ranges_ok, same_place, RoomGraph};
use crate::model::{Disposition, InteriorEdge};
use crate::outside::{choose_below, seeded_rng};
use crate::paths::{
    connected, is_cycle, linked, count_disposition, count_where, is_walk, lemma_count_all, lemma_count_none,
    lemma_count_update, lemma_grid_closed, lemma_walk_concat, lemma_walk_reverse, step_open,
    walk_between, with_disposition,
};

verus! {

/// Where a room stands in the carving.
#[derive(Clone, Copy, Debug, PartialEq, Eq, Structural)]
pub enum Progress {
    /// Not reached yet.
    Unfinished,
    /// Reached; some of its walls may still be undecided.
    InProgress,
    /// Reached, and all of its walls are decided.
    Finished,
}

pub open spec fn is_unfinished() -> spec_fn(Progress) -> bool {
    |p: Progress| p == Progress::Unfinished
}

/// Every wall between rooms is decided.
pub open spec fn all_resolved(edges: Seq<InteriorEdge>) -> bool {
    forall|e: int| 0 <= e < edges.len() ==> #[trigger] edges[e].wall.disposition != Disposition::Unknown
}

/// The open passages form a spanning tree of the rooms: there are one fewer
/// of them than rooms, they join every room to every other, and no cycle
/// runs through them.
pub open spec fn is_spanning_tree(g: RoomGraph) -> bool {
    &&& count_disposition(g.edges@, Disposition::Absent) + 1 == g.num_rooms()
    &&& forall|a: int, b: int|
        0 <= a < g.num_rooms() && 0 <= b < g.num_rooms() ==> #[trigger] connected(g.edges@, a, b)
    &&& forall|w: Seq<int>| !#[trigger] is_cycle(g.edges@, w)
}

/// Every open passage is the parent passage of one of its ends.
pub open spec fn passages_parented(edges: Seq<InteriorEdge>, parent: Seq<int>, root: int) -> bool {
    forall|e: int|
        0 <= e < edges.len() && #[trigger] edges[e].wall.disposition == Disposition::Absent ==> {
            ||| (parent[edges[e].low as int] == e && edges[e].low != root)
            ||| (parent[edges[e].high as int] == e && edges[e].high != root)
        }
}

/// An index of `w[0 .. m]` whose room has the largest rank.
proof fn lemma_max_rank(rank: Seq<nat>, w: Seq<int>, m: int) -> (i: int)
    requires
        1 <= m <= w.len(),
    ensures
        0 <= i < m,
        forall|j: int| 0 <= j < m ==> #[trigger] rank[w[j]] <= rank[w[i]],
    decreases m,
{
    if m == 1 {
        0
    } else {
        let i = lemma_max_rank(rank, w, m - 1);
        if rank[w[m - 1]] > rank[w[i]] {
            m - 1
        } else {
            i
        }
    }
}

/// The open passage between `v` and a neighbour of no higher rank is `v`'s
/// parent passage.
proof fn lemma_passage_to_lower(
    edges: Seq<InteriorEdge>,
    st: Seq<Progress>,
    parent: Seq<int>,
    rank: Seq<nat>,
    root: int,
    v: int,
    u: int,
) -> (e: int)
    requires
        parents_ok(edges, st, parent, rank, root),
        passages_parented(edges, parent, root),
        forall|k: int| 0 <= k < st.len() ==> #[trigger] st[k] != Progress::Unfinished,
        forall|f: int|
            0 <= f < edges.len() ==> #[trigger] edges[f].high < st.len() && edges[f].low < edges[f].high,
        linked(edges, v, u),
        rank[u] <= rank[v],
    ensures
        0 <= e < edges.len(),
        edges[e].passage_between(v, u),
        parent[v] == e,
{
    let e = choose|e: int| 0 <= e < edges.len() && #[trigger] edges[e].passage_between(v, u);
    assert(edges[e].wall.disposition == Disposition::Absent);
    if parent[u] == e && u != root {
        assert(parent_ok(edges, st, parent, rank, u));
        assert(across(edges[e], u) == v);
    }
    e
}

/// No cycle runs through the open passages of a rooted carving.
proof fn lemma_no_cycle(
    edges: Seq<InteriorEdge>,
    st: Seq<Progress>,
    parent: Seq<int>,
    rank: Seq<nat>,
    root: int,
    w: Seq<int>,
)
    requires
        parents_ok(edges, st, parent, rank, root),
        passages_parented(edges, parent, root),
        forall|k: int| 0 <= k < st.len() ==> #[trigger] st[k] != Progress::Unfinished,
        forall|f: int|
            0 <= f < edges.len() ==> #[trigger] edges[f].high < st.len() && edges[f].low < edges[f].high,
    ensures
        !is_cycle(edges, w),
{
    if is_cycle(edges, w) {
        let m = w.len() - 1;
        let ring = w.drop_last();
        let i = lemma_max_rank(rank, w, m);
        let v = w[i];
        let (p, ip) = if i == 0 {
            (w[m - 1], m - 1)
        } else {
            (w[i - 1], i - 1)
        };
        let next = w[i + 1];
        assert(step_open(edges, w, ip));
        assert(step_open(edges, w, i));
        assert(linked(edges, w[ip], w[ip + 1]));
        assert(w[ip + 1] == v);
        let e1 = lemma_passage_to_lower_sym(edges, st, parent, rank, root, p, v);
        if i + 1 < m {
            assert(rank[w[i + 1]] <= rank[v]);
            assert(ring[ip] != ring[i + 1]);
        } else {
            assert(next == w[0]);
            assert(rank[w[0]] <= rank[v]);
            assert(ring[ip] != ring[0]);
        }
        let e2 = lemma_passage_to_lower(edges, st, parent, rank, root, v, next);
        assert(e1 == e2);
    }
}

/// `lemma_passage_to_lower` for a passage walked towards `v`.
proof fn lemma_passage_to_lower_sym(
    edges: Seq<InteriorEdge>,
    st: Seq<Progress>,
    parent: Seq<int>,
    rank: Seq<nat>,
    root: int,
    u: int,
    v: int,
) -> (e: int)
    requires
        parents_ok(edges, st, parent, rank, root),
        passages_parented(edges, parent, root),
        forall|k: int| 0 <= k < st.len() ==> #[trigger] st[k] != Progress::Unfinished,
        forall|f: int|
            0 <= f < edges.len() ==> #[trigger] edges[f].high < st.len() && edges[f].low < edges[f].high,
        linked(edges, u, v),
        rank[u] <= rank[v],
    ensures
        0 <= e < edges.len(),
        edges[e].passage_between(v, u),
        parent[v] == e,
{
    let e0 = choose|e: int| 0 <= e < edges.len() && #[trigger] edges[e].passage_between(u, v);
    assert(edges[e0].passage_between(v, u));
    lemma_passage_to_lower(edges, st, parent, rank, root, v, u)
}

/// The other end of edge `ed` seen from room `k`.
pub open spec fn across(ed: InteriorEdge, k: int) -> int {
    if ed.low == k {
        ed.high as int
    } else {
        ed.low as int
    }
}

/// Room `k` was reached through its parent passage from a room reached
/// before it.
pub open spec fn parent_ok(
    edges: Seq<InteriorEdge>,
    st: Seq<Progress>,
    parent: Seq<int>,
    rank: Seq<nat>,
    k: int,
) -> bool {
    let e = parent[k];
    &&& 0 <= e < edges.len()
    &&& edges[e].wall.disposition == Disposition::Absent
    &&& edges[e].touches(k)
    &&& edges[e].low != edges[e].high
    &&& 0 <= across(edges[e], k) < st.len()
    &&& st[across(edges[e], k)] != Progress::Unfinished
    &&& rank[across(edges[e], k)] < rank[k]
}

/// Every reached room other than `root` has a parent passage.
pub open spec fn parents_ok(
    edges: Seq<InteriorEdge>,
    st: Seq<Progress>,
    parent: Seq<int>,
    rank: Seq<nat>,
    root: int,
) -> bool {
    &&& parent.len() == st.len()
    &&& rank.len() == st.len()
    &&& 0 <= root < st.len()
    &&& st[root] != Progress::Unfinished
    &&& forall|k: int|
        0 <= k < st.len() && k != root && st[k] != Progress::Unfinished ==> #[trigger] parent_ok(
            edges,
            st,
            parent,
            rank,
            k,
        )
}

/// Following parent passages leads from `root` to every reached room.
proof fn lemma_walk_from_root(
    edges: Seq<InteriorEdge>,
    st: Seq<Progress>,
    parent: Seq<int>,
    rank: Seq<nat>,
    root: int,
    k: int,
) -> (w: Seq<int>)
    requires
        parents_ok(edges, st, parent, rank, root),
        0 <= k < st.len(),
        st[k] != Progress::Unfinished,
    ensures
        walk_between(edges, w, root, k),
    decreases rank[k],
{
    if k == root {
        let w = seq![root];
        assert(is_walk(edges, w));
        w
    } else {
        assert(parent_ok(edges, st, parent, rank, k));
        let e = parent[k];
        let p = across(edges[e], k);
        let w0 = lemma_walk_from_root(edges, st, parent, rank, root, p);
        let step = seq![p, k];
        assert(edges[e].passage_between(p, k));
        assert(step_open(edges, step, 0));
        assert(walk_between(edges, step, p, k));
        lemma_walk_concat(edges, w0, step, root, p, k);
        w0 + step.subrange(1, 2)
    }
}

/// Any two reached rooms are joined by open passages.
proof fn lemma_reached_connected(
    edges: Seq<InteriorEdge>,
    st: Seq<Progress>,
    parent: Seq<int>,
    rank: Seq<nat>,
    root: int,
    a: int,
    b: int,
)
    requires
        parents_ok(edges, st, parent, rank, root),
        0 <= a < st.len(),
        0 <= b < st.len(),
        st[a] != Progress::Unfinished,
        st[b] != Progress::Unfinished,
    ensures
        connected(edges, a, b),
{
    let wa = lemma_walk_from_root(edges, st, parent, rank, root, a);
    let wb = lemma_walk_from_root(edges, st, parent, rank, root, b);
    lemma_walk_reverse(edges, wa, root, a);
    lemma_walk_concat(edges, wa.reverse(), wb, a, root, b);
}

/// The undecided edges that touch room `r`, in edge order.
fn undecided_edges_of(edges: &Vec<InteriorEdge>, r: usize) -> (c: Vec<usize>)
    ensures
        forall|i: int|
            0 <= i < c@.len() ==> {
                &&& #[trigger] c@[i] < edges@.len()
                &&& edges@[c@[i] as int].wall.disposition == Disposition::Unknown
                &&& edges@[c@[i] as int].touches(r as int)
            },
        forall|e: int|
            0 <= e < edges@.len() && edges@[e].wall.disposition == Disposition::Unknown
                && #[trigger] edges@[e].touches(r as int) ==> c@.contains(e as usize),
{
    let mut c: Vec<usize> = Vec::new();
    let mut e: usize = 0;
    while e < edges.len()
        invariant
            e <= edges@.len(),
            forall|i: int|
                0 <= i < c@.len() ==> {
                    &&& #[trigger] c@[i] < edges@.len()
                    &&& edges@[c@[i] as int].wall.disposition == Disposition::Unknown
                    &&& edges@[c@[i] as int].touches(r as int)
                },
            forall|f: int|
                0 <= f < e && edges@[f].wall.disposition == Disposition::Unknown
                    && #[trigger] edges@[f].touches(r as int) ==> c@.contains(f as usize),
        decreases edges@.len() - e,
    {
        let ed = edges[e];
        let ghost c_before = c@;
        if ed.wall.disposition == Disposition::Unknown && (ed.low == r || ed.high == r) {
            c.push(e);
            assert(c@[c@.len() - 1] == e);
            assert forall|f: int|
                0 <= f < e && edges@[f].wall.disposition == Disposition::Unknown
                    && #[trigger] edges@[f].touches(r as int) implies c@.contains(f as usize) by {
                assert(c_before.contains(f as usize));
                let i = choose|i: int| 0 <= i < c_before.len() && c_before[i] == f as usize;
                assert(c@[i] == c_before[i]);
            }
        }
        e = e + 1;
    }
    c
}

/// Builds the grid of `x_range` by `z_range` and decides every wall between
/// rooms, drawing from a generator seeded with `seed`: a room is taken at
/// random from those reached and not finished, then one of its undecided
/// walls at random; the wall is removed if it leads to a room not reached
/// yet, and stands otherwise. The removed walls form a spanning tree.
pub fn choose_walls(x_range: &RangeInclusive<i32>, z_range: &RangeInclusive<i32>, seed: u64) -> (g:
    RoomGraph)
    requires
        ranges_ok(*x_range, *z_range),
    ensures
        g.wf(),
        g.x_min == x_range@.start,
        g.x_max == x_range@.end,
        g.z_min == z_range@.start,
        g.z_max == z_range@.end,
        all_resolved(g.edges@),
        is_spanning_tree(g),
{
    let mut g = build_room_graph(x_range, z_range);
    let n = g.rooms.len();
    let mut rng = seeded_rng(seed);
    let mut status: Vec<Progress> = Vec::new();
    while status.len() < n
        invariant
            status@.len() <= n,
            forall|k: int| 0 <= k < status@.len() ==> #[trigger] status@[k] == Progress::Unfinished,
        decreases n - status@.len(),
    {
        status.push(Progress::Unfinished);
    }
    proof {
        lemma_count_all(status@, is_unfinished());
        lemma_count_all(g.edges@, with_disposition(Disposition::Unknown));
        lemma_count_none(g.edges@, with_disposition(Disposition::Absent));
    }
    let root = choose_below(&mut rng, n);
    let ghost st0 = status@;
    status.set(root, Progress::InProgress);
    proof {
        lemma_count_update(st0, is_unfinished(), root as int, Progress::InProgress);
    }
    let mut frontier: Vec<usize> = Vec::new();
    frontier.push(root);
    proof {
        assert forall|k: int|
            0 <= k < n && #[trigger] status@[k] == Progress::InProgress implies frontier@.contains(
            k as usize) by {
            assert(k == root);
            assert(frontier@[0] == root);
        }
    }
    let ghost mut parent: Seq<int> = Seq::new(n as nat, |k: int| 0int);
    let ghost mut rank: Seq<nat> = Seq::new(n as nat, |k: int| 0nat);
    let ghost mut next_rank: nat = 1;
    let ghost g0 = g;
    proof {
        assert forall|e: int| 0 <= e < g.num_edges() implies #[trigger] g.edges@[e].high < n
            && g.edges@[e].low < g.edges@[e].high by {
            assert(g.edge_placed(e));
        }
    }
    while frontier.len() > 0
        invariant
            g.wf(),
            g.same_layout(g0),
            g0.wf(),
            n == g.num_rooms(),
            forall|e: int|
                0 <= e < g.num_edges() ==> #[trigger] g.edges@[e].high < n && g.edges@[e].low
                    < g.edges@[e].high,
            status@.len() == n,
            forall|i: int|
                0 <= i < frontier@.len() ==> #[trigger] frontier@[i] < n && status@[frontier@[i] as int]
                    == Progress::InProgress,
            frontier@.no_duplicates(),
            forall|k: int|
                0 <= k < n && #[trigger] status@[k] == Progress::InProgress ==> frontier@.contains(
                    k as usize,
                ),
            forall|e: int|
                0 <= e < g.num_edges() && #[trigger] g.edges@[e].wall.disposition
                    != Disposition::Unknown ==> status@[g.edges@[e].low as int]
                    != Progress::Unfinished && status@[g.edges@[e].high as int]
                    != Progress::Unfinished,
            forall|e: int|
                0 <= e < g.num_edges() && #[trigger] g.edges@[e].wall.disposition
                    == Disposition::Unknown ==> status@[g.edges@[e].low as int]
                    != Progress::Finished && status@[g.edges@[e].high as int]
                    != Progress::Finished,
            count_disposition(g.edges@, Disposition::Absent) + count_where(
                status@,
                is_unfinished(),
            ) + 1 == n,
            parents_ok(g.edges@, status@, parent, rank, root as int),
            passages_parented(g.edges@, parent, root as int),
            forall|k: int| 0 <= k < n && status@[k] != Progress::Unfinished ==> #[trigger] rank[k] < next_rank,
        decreases 2 * count_disposition(g.edges@, Disposition::Unknown) + 2 * count_where(
            status@,
            is_unfinished(),
        ) + frontier@.len(),
    {
        let fi = choose_below(&mut rng, frontier.len());
        let r = frontier[fi];
        let candidates = undecided_edges_of(&g.edges, r);
        if candidates.len() == 0 {
            let ghost st_before = status@;
            let ghost fr_before = frontier@;
            frontier.remove(fi);
            status.set(r, Progress::Finished);
            proof {
                lemma_count_update(st_before, is_unfinished(), r as int, Progress::Finished);
                assert forall|i: int| 0 <= i < frontier@.len() implies #[trigger] frontier@[i] < n
                    && status@[frontier@[i] as int] == Progress::InProgress by {
                    if i < fi {
                        assert(frontier@[i] == fr_before[i]);
                    } else {
                        assert(frontier@[i] == fr_before[i + 1]);
                    }
                }
                assert forall|k: int|
                    0 <= k < n && #[trigger] status@[k] == Progress::InProgress implies frontier@.contains(
                    k as usize) by {
                    assert(fr_before.contains(k as usize));
                    let i = choose|i: int| 0 <= i < fr_before.len() && fr_before[i] == k as usize;
                    if i < fi {
                        assert(frontier@[i] == fr_before[i]);
                    } else {
                        assert(i != fi);
                        assert(frontier@[i - 1] == fr_before[i]);
                    }
                }
                assert forall|e: int|
                    0 <= e < g.num_edges() && #[trigger] g.edges@[e].wall.disposition
                        == Disposition::Unknown implies status@[g.edges@[e].low as int]
                    != Progress::Finished && status@[g.edges@[e].high as int]
                    != Progress::Finished by {
                    if g.edges@[e].touches(r as int) {
                        assert(candidates@.contains(e as usize));
                    }
                }
                assert forall|k: int|
                    0 <= k < n && k != root && status@[k] != Progress::Unfinished implies #[trigger] parent_ok(
                    g.edges@, status@, parent, rank, k) by {
                    assert(parent_ok(g.edges@, st_before, parent, rank, k));
                }
                assert forall|k: int| 0 <= k < n && status@[k] != Progress::Unfinished implies #[trigger] rank[k] < next_rank by {
                    assert(st_before[k] != Progress::Unfinished);
                }
            }
        } else {
            let ci = choose_below(&mut rng, candidates.len());
            let e = candidates[ci];
            let mut ed = g.edges[e];
            let nb = if ed.low == r {
                ed.high
            } else {
                ed.low
            };
            proof {
                assert(g.edge_placed(e as int));
                assert(g.room_placed(ed.high as int));
            }
            let ghost edges_before = g.edges@;
            let ghost st_before = status@;
            let ghost fr_before = frontier@;
            if status[nb] == Progress::Unfinished {
                ed.wall.disposition = Disposition::Absent;
                g.edges.set(e, ed);
                status.set(nb, Progress::InProgress);
                frontier.push(nb);
                proof {
                    lemma_count_update(
                        edges_before,
                        with_disposition(Disposition::Absent),
                        e as int,
                        ed,
                    );
                    lemma_count_update(
                        edges_before,
                        with_disposition(Disposition::Unknown),
                        e as int,
                        ed,
                    );
                    lemma_count_update(st_before, is_unfinished(), nb as int, Progress::InProgress);
                    let parent_before = parent;
                    let rank_before = rank;
                    parent = parent.update(nb as int, e as int);
                    rank = rank.update(nb as int, next_rank);
                    next_rank = next_rank + 1;
                    assert(rank_before[r as int] < next_rank - 1);
                    assert(parent_ok(g.edges@, status@, parent, rank, nb as int));
                    assert forall|k: int|
                        0 <= k < n && k != root && status@[k] != Progress::Unfinished implies #[trigger] parent_ok(
                        g.edges@, status@, parent, rank, k) by {
                        if k != nb {
                            assert(parent_ok(edges_before, st_before, parent_before, rank_before, k));
                            assert(parent_before[k] != e);
                        }
                    }
                    assert forall|f: int|
                        0 <= f < g.num_edges() && #[trigger] g.edges@[f].wall.disposition
                            == Disposition::Unknown implies status@[g.edges@[f].low as int]
                        != Progress::Finished && status@[g.edges@[f].high as int]
                        != Progress::Finished by {
                        assert(edges_before[f].wall.disposition == Disposition::Unknown);
                    }
                    assert forall|i: int|
                        0 <= i < frontier@.len() implies #[trigger] frontier@[i] < n
                            && status@[frontier@[i] as int] == Progress::InProgress by {
                        if i < frontier@.len() - 1 {
                            assert(frontier@[i] != nb);
                        }
                    }
                    assert forall|k: int|
                        0 <= k < n && #[trigger] status@[k] == Progress::InProgress implies frontier@.contains(
                        k as usize) by {
                        if k == nb {
                            assert(frontier@[frontier@.len() - 1] == nb);
                        } else {
                            assert(st_before[k] == Progress::InProgress);
                            assert(fr_before.contains(k as usize));
                            let i = choose|i: int| 0 <= i < fr_before.len() && fr_before[i] == k as usize;
                            assert(frontier@[i] == fr_before[i]);
                        }
                    }
                }
            } else {
                ed.wall.disposition = Disposition::Present;
                g.edges.set(e, ed);
                proof {
                    assert forall|k: int|
                        0 <= k < n && k != root && status@[k] != Progress::Unfinished implies #[trigger] parent_ok(
                        g.edges@, status@, parent, rank, k) by {
                        assert(parent_ok(edges_before, st_before, parent, rank, k));
                        assert(parent[k] != e);
                    }
                    lemma_count_update(
                        edges_before,
                        with_disposition(Disposition::Absent),
                        e as int,
                        ed,
                    );
                    lemma_count_update(
                        edges_before,
                        with_disposition(Disposition::Unknown),
                        e as int,
                        ed,
                    );
                }
            }
            proof {
                assert forall|f: int| 0 <= f < g.num_edges() implies same_place(
                    #[trigger] g.edges@[f],
                    g0.edges@[f],
                ) by {
                    assert(same_place(edges_before[f], g0.edges@[f]));
                }
                assert(g.rooms@ == g0.rooms@);
                assert(g.south_edge@ == g0.south_edge@);
                assert(g.edges@.len() == g0.edges@.len());
                assert(g.west_edge@ == g0.west_edge@);
                assert(g.x_min == g0.x_min && g.x_max == g0.x_max);
                assert(g.z_min == g0.z_min && g.z_max == g0.z_max);
                assert(g.same_layout(g0));
                lemma_same_layout_wf(g0, g);
            }
        }
    }
    proof {
        lemma_carving_done(g, status@, parent, rank, root as int);
    }
    g
}

/// Two graphs of the same layout are well formed together.
proof fn lemma_same_layout_wf(a: RoomGraph, b: RoomGraph)
    requires
        a.wf(),
        b.same_layout(a),
    ensures
        b.wf(),
        b.same_layout(a),
{
    assert forall|k: int| 0 <= k < b.num_rooms() implies #[trigger] b.south_linked(k) by {
        assert(a.south_linked(k));
        match b.south_edge@[k] {
            Some(e) => {
                assert(same_place(b.edges@[e as int], a.edges@[e as int]));
            },
            None => {},
        }
    }
    assert forall|k: int| 0 <= k < b.num_rooms() implies #[trigger] b.west_linked(k) by {
        assert(a.west_linked(k));
        match b.west_edge@[k] {
            Some(e) => {
                assert(same_place(b.edges@[e as int], a.edges@[e as int]));
            },
            None => {},
        }
    }
    assert forall|k: int| 0 <= k < b.num_rooms() implies #[trigger] b.room_placed(k) by {
        assert(a.room_placed(k));
    }
    assert forall|e: int| 0 <= e < b.num_edges() implies #[trigger] b.edge_placed(e) by {
        assert(a.edge_placed(e));
        assert(same_place(b.edges@[e], a.edges@[e]));
    }
}

/// With nothing left in progress, every room is reached, every wall decided,
/// and the open passages form a spanning tree.
proof fn lemma_carving_done(g: RoomGraph, st: Seq<Progress>, parent: Seq<int>, rank: Seq<nat>, root: int)
    requires
        g.wf(),
        st.len() == g.num_rooms(),
        forall|k: int| 0 <= k < st.len() ==> #[trigger] st[k] != Progress::InProgress,
        forall|e: int|
            0 <= e < g.num_edges() && #[trigger] g.edges@[e].wall.disposition
                != Disposition::Unknown ==> st[g.edges@[e].low as int] != Progress::Unfinished
                && st[g.edges@[e].high as int] != Progress::Unfinished,
        forall|e: int|
            0 <= e < g.num_edges() && #[trigger] g.edges@[e].wall.disposition
                == Disposition::Unknown ==> st[g.edges@[e].low as int] != Progress::Finished
                && st[g.edges@[e].high as int] != Progress::Finished,
        count_disposition(g.edges@, Disposition::Absent) + count_where(st, is_unfinished()) + 1
            == g.num_rooms(),
        parents_ok(g.edges@, st, parent, rank, root),
        passages_parented(g.edges@, parent, root),
    ensures
        all_resolved(g.edges@),
        is_spanning_tree(g),
{
    let reached = |k: int| st[k] != Progress::Unfinished;
    assert forall|e: int| 0 <= e < g.num_edges() implies (reached(#[trigger] g.edges@[e].low as int)
        <==> reached(g.edges@[e].high as int)) by {
        assert(g.edge_placed(e));
        if g.edges@[e].wall.disposition == Disposition::Unknown {
            assert(st[g.edges@[e].low as int] != Progress::InProgress);
            assert(st[g.edges@[e].high as int] != Progress::InProgress);
        }
    }
    lemma_grid_closed(g, reached, root);
    assert forall|k: int| 0 <= k < st.len() implies !is_unfinished()(#[trigger] st[k]) by {
        assert(reached(k));
    }
    lemma_count_none(st, is_unfinished());
    assert forall|e: int| 0 <= e < g.num_edges() implies #[trigger] g.edges@[e].wall.disposition
        != Disposition::Unknown by {
        assert(g.edge_placed(e));
        assert(reached(g.edges@[e].low as int));
        assert(st[g.edges@[e].low as int] != Progress::InProgress);
    }
    assert forall|a: int, b: int|
        0 <= a < g.num_rooms() && 0 <= b < g.num_rooms() implies #[trigger] connected(g.edges@, a, b) by {
        assert(reached(a));
        assert(reached(b));
        lemma_reached_connected(g.edges@, st, parent, rank, root, a, b);
    }
    assert forall|f: int| 0 <= f < g.num_edges() implies #[trigger] g.edges@[f].high < st.len()
        && g.edges@[f].low < g.edges@[f].high by {
        assert(g.edge_placed(f));
    }
    assert forall|w: Seq<int>| !#[trigger] is_cycle(g.edges@, w) by {
        lemma_no_cycle(g.edges@, st, parent, rank, root, w);
    }
}

} // verus!
