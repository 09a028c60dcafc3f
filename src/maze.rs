//! The generator's entry point: the wall list and the spawn rooms.

use core::ops::RangeInclusive;
use vstd::prelude::*;

use crate::carve::{all_resolved, choose_walls, is_spanning_tree};
use crate::grid::{border_walls, border_walls_spec, ranges_ok, RoomGraph};
use crate::model::{Disposition, InteriorEdge, Room, SpawnPositions, Wall};
use crate::paths::{count_disposition, lemma_count_none, with_disposition};
use crate::spawn::{choose_spawn_positions, farthest_apart, lemma_farthest_unique, room_index};

verus! {

/// The walls of the edges, in edge order.
pub open spec fn interior_walls(edges: Seq<InteriorEdge>) -> Seq<Wall> {
    edges.map_values(|ed: InteriorEdge| ed.wall)
}

/// `walls` and `sp` are what generation gives on the carved grid `g` of
/// the rectangle `[x_min, x_max) x [z_min, z_max)`: the border walls, then
/// the wall of every edge, all decided, the open ones forming a spanning
/// tree, and the spawn rooms farthest apart along it.
pub open spec fn maze_from(
    g: RoomGraph,
    x_min: int,
    x_max: int,
    z_min: int,
    z_max: int,
    walls: Seq<Wall>,
    sp: SpawnPositions,
) -> bool {
    &&& g.wf()
    &&& g.x_min == x_min
    &&& g.x_max == x_max
    &&& g.z_min == z_min
    &&& g.z_max == z_max
    &&& all_resolved(g.edges@)
    &&& is_spanning_tree(g)
    &&& walls == border_walls_spec(x_min, x_max, z_min, z_max) + interior_walls(g.edges@)
    &&& farthest_apart(g, sp)
}

/// `walls` and `sp` are a maze of the rectangle, for some carving.
pub open spec fn is_maze(
    x_min: int,
    x_max: int,
    z_min: int,
    z_max: int,
    walls: Seq<Wall>,
    sp: SpawnPositions,
) -> bool {
    exists|g: RoomGraph| #[trigger] maze_from(g, x_min, x_max, z_min, z_max, walls, sp)
}

/// Generates a maze over the rooms `[x_min, x_max) x [z_min, z_max)` of the
/// two inclusive ranges: the border walls followed by the decided wall
/// between each pair of adjacent rooms, and the two rooms farthest apart.
pub fn generate_maze(x_range: &RangeInclusive<i32>, z_range: &RangeInclusive<i32>, seed: u64) -> (r:
    (Vec<Wall>, SpawnPositions))
    requires
        ranges_ok(*x_range, *z_range),
    ensures
        is_maze(
            x_range@.start as int,
            x_range@.end as int,
            z_range@.start as int,
            z_range@.end as int,
            r.0@,
            r.1,
        ),
{
    let mut walls = border_walls(x_range, z_range);
    let g = choose_walls(x_range, z_range, seed);
    let sp = choose_spawn_positions(&g);
    let ghost border = walls@;
    let mut e: usize = 0;
    while e < g.edges.len()
        invariant
            e <= g.edges@.len(),
            walls@ == border + interior_walls(g.edges@.subrange(0, e as int)),
        decreases g.edges@.len() - e,
    {
        walls.push(g.edges[e].wall);
        proof {
            assert(g.edges@.subrange(0, e + 1) =~= g.edges@.subrange(0, e as int).push(g.edges@[e as int]));
            assert(interior_walls(g.edges@.subrange(0, e + 1)) =~= interior_walls(
                g.edges@.subrange(0, e as int),
            ).push(g.edges@[e as int].wall));
        }
        e = e + 1;
    }
    proof {
        assert(g.edges@.subrange(0, g.edges@.len() as int) =~= g.edges@);
        assert(maze_from(
            g,
            x_range@.start as int,
            x_range@.end as int,
            z_range@.start as int,
            z_range@.end as int,
            walls@,
            sp,
        ));
    }
    (walls, sp)
}

/// A maze of a single room has no wall between rooms and no open passage:
/// its walls are the four of the room's outline, and it starts in the room
/// where it ends.
pub proof fn lemma_single_room_maze(x: int, z: int, walls: Seq<Wall>, sp: SpawnPositions)
    requires
        is_maze(x, x + 1, z, z + 1, walls, sp),
    ensures
        walls == border_walls_spec(x, x + 1, z, z + 1),
        walls.len() == 4,
        sp.start == sp.goal,
        sp.start == (Room { west_edge: x as i32, south_edge: z as i32 }),
{
    let (x1, z1) = (x + 1, z + 1);
    let g = choose|g: RoomGraph| #[trigger] maze_from(g, x, x1, z, z1, walls, sp);
    assert(g.num_rooms() == 1);
    if g.num_edges() > 0 {
        assert(g.edge_placed(0));
    }
    assert(interior_walls(g.edges@) =~= Seq::<Wall>::empty());
    assert(walls =~= border_walls_spec(x, x + 1, z, z + 1));
    assert(room_index(g, sp.start) == 0);
    assert(room_index(g, sp.goal) == 0);
    assert(g.room_placed(0));
    reveal_with_fuel(crate::grid::x_border, 2);
    reveal_with_fuel(crate::grid::z_border, 2);
}

/// The wall list and the spawn rooms are a function of the carving: two
/// generations that carve the same passages give the same output.
pub proof fn lemma_maze_determined_by_carving(
    g: RoomGraph,
    x_min: int,
    x_max: int,
    z_min: int,
    z_max: int,
    walls1: Seq<Wall>,
    sp1: SpawnPositions,
    walls2: Seq<Wall>,
    sp2: SpawnPositions,
)
    requires
        maze_from(g, x_min, x_max, z_min, z_max, walls1, sp1),
        maze_from(g, x_min, x_max, z_min, z_max, walls2, sp2),
    ensures
        walls1 == walls2,
        sp1 == sp2,
{
    lemma_farthest_unique(g, sp1, sp2);
}

/// A single room's carving opens no passage.
pub proof fn lemma_single_room_no_passage(g: RoomGraph)
    requires
        g.wf(),
        g.num_rooms() == 1,
    ensures
        g.num_edges() == 0,
        count_disposition(g.edges@, Disposition::Absent) == 0,
{
    if g.num_edges() > 0 {
        assert(g.edge_placed(0));
    }
    lemma_count_none(g.edges@, with_disposition(Disposition::Absent));
}

} // verus!
