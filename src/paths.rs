//! Walks along open passages, and counting.

use vstd::prelude::*;

use crate::grid::RoomGraph;
use crate::model::{Disposition, InteriorEdge};

verus! {

/// How many items of `s` satisfy `f`.
pub open spec fn count_where<T>(s: Seq<T>, f: spec_fn(T) -> bool) -> nat
    decreases s.len(),
{
    if s.len() == 0 {
        0
    } else {
        count_where(s.drop_last(), f) + if f(s.last()) {
            1nat
        } else {
            0nat
        }
    }
}

/// Changing one item changes the count by what that item contributed.
pub proof fn lemma_count_update<T>(s: Seq<T>, f: spec_fn(T) -> bool, i: int, v: T)
    requires
        0 <= i < s.len(),
    ensures
        count_where(s.update(i, v), f) + (if f(s[i]) {
            1int
        } else {
            0int
        }) == count_where(s, f) + (if f(v) {
            1int
        } else {
            0int
        }),
    decreases s.len(),
{
    let t = s.update(i, v);
    if i == s.len() - 1 {
        assert(t.drop_last() =~= s.drop_last());
    } else {
        assert(t.drop_last() =~= s.drop_last().update(i, v));
        lemma_count_update(s.drop_last(), f, i, v);
    }
}

/// No item satisfies `f`: the count is zero.
pub proof fn lemma_count_none<T>(s: Seq<T>, f: spec_fn(T) -> bool)
    requires
        forall|i: int| 0 <= i < s.len() ==> !f(#[trigger] s[i]),
    ensures
        count_where(s, f) == 0,
    decreases s.len(),
{
    if s.len() > 0 {
        lemma_count_none(s.drop_last(), f);
    }
}

/// Every item satisfies `f`: the count is the length.
pub proof fn lemma_count_all<T>(s: Seq<T>, f: spec_fn(T) -> bool)
    requires
        forall|i: int| 0 <= i < s.len() ==> f(#[trigger] s[i]),
    ensures
        count_where(s, f) == s.len(),
    decreases s.len(),
{
    if s.len() > 0 {
        lemma_count_all(s.drop_last(), f);
    }
}

/// The edges whose wall has disposition `d`.
pub open spec fn with_disposition(d: Disposition) -> spec_fn(InteriorEdge) -> bool {
    |ed: InteriorEdge| ed.wall.disposition == d
}

/// How many edges have disposition `d`.
pub open spec fn count_disposition(edges: Seq<InteriorEdge>, d: Disposition) -> nat {
    count_where(edges, with_disposition(d))
}

/// Some open passage joins rooms `a` and `b`.
pub open spec fn linked(edges: Seq<InteriorEdge>, a: int, b: int) -> bool {
    exists|e: int| 0 <= e < edges.len() && #[trigger] edges[e].passage_between(a, b)
}

/// Step `i` of `w` crosses an open passage.
pub open spec fn step_open(edges: Seq<InteriorEdge>, w: Seq<int>, i: int) -> bool {
    linked(edges, w[i], w[i + 1])
}

/// `w` is a sequence of rooms, each joined to the next by an open passage;
/// it takes `w.len() - 1` steps.
pub open spec fn is_walk(edges: Seq<InteriorEdge>, w: Seq<int>) -> bool {
    &&& w.len() >= 1
    &&& forall|i: int| 0 <= i < w.len() - 1 ==> #[trigger] step_open(edges, w, i)
}

/// `w` is a walk from `a` to `b`.
pub open spec fn walk_between(edges: Seq<InteriorEdge>, w: Seq<int>, a: int, b: int) -> bool {
    &&& is_walk(edges, w)
    &&& w[0] == a
    &&& w.last() == b
}

/// `w` goes once around a cycle of open passages: a closed walk through
/// at least three rooms, none visited twice before it closes.
pub open spec fn is_cycle(edges: Seq<InteriorEdge>, w: Seq<int>) -> bool {
    &&& is_walk(edges, w)
    &&& w.len() >= 4
    &&& w[0] == w.last()
    &&& w.drop_last().no_duplicates()
}

/// Rooms `a` and `b` are joined by open passages.
pub open spec fn connected(edges: Seq<InteriorEdge>, a: int, b: int) -> bool {
    exists|w: Seq<int>| walk_between(edges, w, a, b)
}

/// `d` is the length of a shortest walk from `a` to `b`.
pub open spec fn is_distance(edges: Seq<InteriorEdge>, a: int, b: int, d: int) -> bool {
    &&& exists|w: Seq<int>| walk_between(edges, w, a, b) && w.len() - 1 == d
    &&& forall|w: Seq<int>| walk_between(edges, w, a, b) ==> w.len() - 1 >= d
}

/// A walk read backwards is a walk.
pub proof fn lemma_walk_reverse(edges: Seq<InteriorEdge>, w: Seq<int>, a: int, b: int)
    requires
        walk_between(edges, w, a, b),
    ensures
        walk_between(edges, w.reverse(), b, a),
{
    let r = w.reverse();
    assert forall|i: int| 0 <= i < r.len() - 1 implies #[trigger] step_open(edges, r, i) by {
        let j = w.len() - 2 - i;
        assert(step_open(edges, w, j));
        let e = choose|e: int| 0 <= e < edges.len() && #[trigger] edges[e].passage_between(w[j], w[j + 1]);
        assert(edges[e].passage_between(r[i], r[i + 1]));
    }
}

/// A walk to `b` followed by a walk from `b` is a walk.
pub proof fn lemma_walk_concat(
    edges: Seq<InteriorEdge>,
    w1: Seq<int>,
    w2: Seq<int>,
    a: int,
    b: int,
    c: int,
)
    requires
        walk_between(edges, w1, a, b),
        walk_between(edges, w2, b, c),
    ensures
        walk_between(edges, w1 + w2.subrange(1, w2.len() as int), a, c),
{
    let t = w2.subrange(1, w2.len() as int);
    let w = w1 + t;
    assert forall|i: int| 0 <= i < w.len() - 1 implies #[trigger] step_open(edges, w, i) by {
        if i < w1.len() - 1 {
            assert(step_open(edges, w1, i));
        } else {
            let j = i - w1.len() + 1;
            assert(step_open(edges, w2, j));
        }
    }
    if t.len() > 0 {
        assert(w.last() == w2.last());
    }
}

/// A set of rooms that no wall of the grid separates from the rest, and
/// that holds one room, holds every room.
pub proof fn lemma_grid_closed(g: RoomGraph, s: spec_fn(int) -> bool, k0: int)
    requires
        g.wf(),
        0 <= k0 < g.num_rooms(),
        s(k0),
        forall|e: int|
            0 <= e < g.num_edges() ==> (s(#[trigger] g.edges@[e].low as int) <==> s(
                g.edges@[e].high as int,
            )),
    ensures
        forall|k: int| 0 <= k < g.num_rooms() ==> #[trigger] s(k),
{
    assert forall|k: int| 0 <= k < g.num_rooms() implies #[trigger] s(k) == s(0) by {
        lemma_grid_same_as_first(g, s, k);
    }
    lemma_grid_same_as_first(g, s, k0);
}

proof fn lemma_grid_same_as_first(g: RoomGraph, s: spec_fn(int) -> bool, k: int)
    requires
        g.wf(),
        0 <= k < g.num_rooms(),
        forall|e: int|
            0 <= e < g.num_edges() ==> (s(#[trigger] g.edges@[e].low as int) <==> s(
                g.edges@[e].high as int,
            )),
    ensures
        s(k) == s(0),
    decreases k,
{
    if k > 0 {
        assert(g.room_placed(k));
        assert(g.south_linked(k));
        assert(g.west_linked(k));
        let r = g.rooms@[k];
        match g.south_edge@[k] {
            Some(e) => {
                assert(s(g.edges@[e as int].low as int) <==> s(g.edges@[e as int].high as int));
                lemma_grid_same_as_first(g, s, k - 1);
            },
            None => {
                if r.west_edge == g.x_min {
                    assert(k == 0 * g.depth());
                }
                match g.west_edge@[k] {
                    Some(e) => {
                        assert(s(g.edges@[e as int].low as int) <==> s(
                            g.edges@[e as int].high as int,
                        ));
                        lemma_grid_same_as_first(g, s, k - g.depth());
                    },
                    None => {},
                }
            },
        }
    }
}

} // verus!
