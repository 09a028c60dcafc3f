use core::ops::RangeInclusive;
use vstd::prelude::*;

use crate::model::{Disposition, InteriorEdge, Room, Wall, WallOrientation};

verus! {

/// The largest number of rooms a maze may have: the all-pairs distance
/// table holds the square of the room count, which must stay indexable
/// with 32 bits.
pub const MAX_ROOMS: usize = 0x7fff;

/// The rooms of the extent: one per integer `x` in `[x_min, x_max)` and
/// `z` in `[z_min, z_max)`; there must be at least one, and not too many.
pub open spec fn extent_ok(x_min: int, x_max: int, z_min: int, z_max: int) -> bool {
    &&& x_min < x_max
    &&& z_min < z_max
    &&& (x_max - x_min) * (z_max - z_min) <= MAX_ROOMS
}

/// `extent_ok` read off two inclusive ranges.
pub open spec fn ranges_ok(x_range: RangeInclusive<i32>, z_range: RangeInclusive<i32>) -> bool {
    extent_ok(
        x_range@.start as int,
        x_range@.end as int,
        z_range@.start as int,
        z_range@.end as int,
    )
}

/// The rooms of a rectangle and the candidate walls between axis-adjacent
/// rooms. Room `k` sits at `x_min + k / depth`, `z_min + k % depth`; the
/// wall on its south side is edge `south_edge[k]`, the one on its west side
/// edge `west_edge[k]`, where such a neighbour exists.
pub struct RoomGraph {
    pub x_min: i32,
    pub x_max: i32,
    pub z_min: i32,
    pub z_max: i32,
    pub rooms: Vec<Room>,
    pub edges: Vec<InteriorEdge>,
    pub south_edge: Vec<Option<usize>>,
    pub west_edge: Vec<Option<usize>>,
}

impl RoomGraph {
    pub open spec fn depth(self) -> int {
        self.z_max - self.z_min
    }

    pub open spec fn width(self) -> int {
        self.x_max - self.x_min
    }

    pub open spec fn num_rooms(self) -> int {
        self.rooms@.len() as int
    }

    pub open spec fn num_edges(self) -> int {
        self.edges@.len() as int
    }

    /// Room `k` lies in the rectangle, at the place its index names.
    pub open spec fn room_placed(self, k: int) -> bool {
        let r = self.rooms@[k];
        &&& self.x_min <= r.west_edge < self.x_max
        &&& self.z_min <= r.south_edge < self.z_max
        &&& k == (r.west_edge - self.x_min) * self.depth() + (r.south_edge - self.z_min)
    }

    /// Room `k` has a wall to its south neighbour `k - 1` exactly when it is
    /// not on the south border.
    pub open spec fn south_linked(self, k: int) -> bool {
        let r = self.rooms@[k];
        match self.south_edge@[k] {
            Some(e) => {
                &&& r.south_edge > self.z_min
                &&& e < self.edges@.len()
                &&& self.edges@[e as int].low == k - 1
                &&& self.edges@[e as int].high == k
                &&& self.edges@[e as int].wall.sw_corner == (r.west_edge, r.south_edge)
                &&& self.edges@[e as int].wall.orientation == WallOrientation::ParallelToX
            },
            None => r.south_edge == self.z_min,
        }
    }

    /// Room `k` has a wall to its west neighbour `k - depth` exactly when it
    /// is not on the west border.
    pub open spec fn west_linked(self, k: int) -> bool {
        let r = self.rooms@[k];
        match self.west_edge@[k] {
            Some(e) => {
                &&& r.west_edge > self.x_min
                &&& e < self.edges@.len()
                &&& self.edges@[e as int].low == k - self.depth()
                &&& self.edges@[e as int].high == k
                &&& self.edges@[e as int].wall.sw_corner == (r.west_edge, r.south_edge)
                &&& self.edges@[e as int].wall.orientation == WallOrientation::ParallelToZ
            },
            None => r.west_edge == self.x_min,
        }
    }

    /// Edge `e` is the south or west wall of its higher room, so no two
    /// edges join the same pair.
    pub open spec fn edge_placed(self, e: int) -> bool {
        let h = self.edges@[e].high as int;
        &&& 0 <= h < self.rooms@.len()
        &&& self.edges@[e].low < self.edges@[e].high
        &&& self.edges@[e].wall.orientation == WallOrientation::ParallelToX ==> self.south_edge@[h]
            == Some(e as usize)
        &&& self.edges@[e].wall.orientation == WallOrientation::ParallelToZ ==> self.west_edge@[h]
            == Some(e as usize)
    }

    /// The graph is the full grid of its rectangle.
    pub open spec fn wf(self) -> bool {
        &&& extent_ok(self.x_min as int, self.x_max as int, self.z_min as int, self.z_max as int)
        &&& self.num_rooms() == self.width() * self.depth()
        &&& self.num_rooms() >= 1
        &&& self.south_edge@.len() == self.num_rooms()
        &&& self.west_edge@.len() == self.num_rooms()
        &&& forall|k: int| 0 <= k < self.num_rooms() ==> #[trigger] self.room_placed(k)
        &&& forall|k: int| 0 <= k < self.num_rooms() ==> #[trigger] self.south_linked(k)
        &&& forall|k: int| 0 <= k < self.num_rooms() ==> #[trigger] self.west_linked(k)
        &&& forall|e: int| 0 <= e < self.num_edges() ==> #[trigger] self.edge_placed(e)
    }

    /// The same grid, whatever has become of the walls' dispositions.
    pub open spec fn same_layout(self, other: RoomGraph) -> bool {
        &&& self.x_min == other.x_min
        &&& self.x_max == other.x_max
        &&& self.z_min == other.z_min
        &&& self.z_max == other.z_max
        &&& self.rooms@ == other.rooms@
        &&& self.south_edge@ == other.south_edge@
        &&& self.west_edge@ == other.west_edge@
        &&& self.edges@.len() == other.edges@.len()
        &&& forall|e: int|
            0 <= e < self.edges@.len() ==> same_place(#[trigger] self.edges@[e], other.edges@[e])
    }
}

/// Two edges join the same rooms through the same wall segment.
pub open spec fn same_place(a: InteriorEdge, b: InteriorEdge) -> bool {
    &&& a.low == b.low
    &&& a.high == b.high
    &&& a.wall.sw_corner == b.wall.sw_corner
    &&& a.wall.orientation == b.wall.orientation
}

/// Builds the grid of rooms `[x_min, x_max) x [z_min, z_max)` with one
/// undecided wall between each pair of axis-adjacent rooms.
pub fn build_room_graph(x_range: &RangeInclusive<i32>, z_range: &RangeInclusive<i32>) -> (g:
    RoomGraph)
    requires
        ranges_ok(*x_range, *z_range),
    ensures
        g.wf(),
        g.x_min == x_range@.start,
        g.x_max == x_range@.end,
        g.z_min == z_range@.start,
        g.z_max == z_range@.end,
        forall|e: int|
            0 <= e < g.num_edges() ==> #[trigger] g.edges@[e].wall.disposition
                == Disposition::Unknown,
{
    let x_min = *x_range.start();
    let x_max = *x_range.end();
    let z_min = *z_range.start();
    let z_max = *z_range.end();
    let depth: usize = (z_max as i64 - z_min as i64) as usize;
    let ghost width = x_max - x_min;
    proof {
        assert(width * depth <= MAX_ROOMS);
        assert(1 <= width * depth) by (nonlinear_arith)
            requires width >= 1, depth >= 1;
    }
    let mut g = RoomGraph {
        x_min,
        x_max,
        z_min,
        z_max,
        rooms: Vec::new(),
        edges: Vec::new(),
        south_edge: Vec::new(),
        west_edge: Vec::new(),
    };
    let mut x: i32 = x_min;
    while x < x_max
        invariant
            x_min <= x <= x_max,
            depth == g.depth(),
            width == g.width(),
            width * depth <= MAX_ROOMS,
            g.x_min == x_min && g.x_max == x_max && g.z_min == z_min && g.z_max == z_max,
            extent_ok(x_min as int, x_max as int, z_min as int, z_max as int),
            g.num_rooms() == (x - x_min) * depth,
            1 <= width * depth,
            g.south_edge@.len() == g.num_rooms(),
            g.west_edge@.len() == g.num_rooms(),
            forall|k: int| 0 <= k < g.num_rooms() ==> #[trigger] g.room_placed(k),
            forall|k: int| 0 <= k < g.num_rooms() ==> #[trigger] g.south_linked(k),
            forall|k: int| 0 <= k < g.num_rooms() ==> #[trigger] g.west_linked(k),
            forall|e: int| 0 <= e < g.num_edges() ==> #[trigger] g.edge_placed(e),
            forall|e: int|
                0 <= e < g.num_edges() ==> #[trigger] g.edges@[e].wall.disposition
                    == Disposition::Unknown,
            g.num_edges() <= 2 * g.num_rooms(),
        decreases x_max - x,
    {
        let mut z: i32 = z_min;
        proof {
            assert((x - x_min) * depth + depth <= width * depth) by (nonlinear_arith)
                requires x - x_min < width, depth >= 0;
            assert((x - x_min) * depth + depth == (x - x_min + 1) * depth) by (nonlinear_arith);
        }
        while z < z_max
            invariant
                x_min <= x < x_max,
                z_min <= z <= z_max,
                depth == g.depth(),
                width == g.width(),
                (x - x_min) * depth + depth <= width * depth,
                width * depth <= MAX_ROOMS,
                1 <= width * depth,
                g.x_min == x_min && g.x_max == x_max && g.z_min == z_min && g.z_max == z_max,
                extent_ok(x_min as int, x_max as int, z_min as int, z_max as int),
                g.num_rooms() == (x - x_min) * depth + (z - z_min),
                g.south_edge@.len() == g.num_rooms(),
                g.west_edge@.len() == g.num_rooms(),
                forall|k: int| 0 <= k < g.num_rooms() ==> #[trigger] g.room_placed(k),
                forall|k: int| 0 <= k < g.num_rooms() ==> #[trigger] g.south_linked(k),
                forall|k: int| 0 <= k < g.num_rooms() ==> #[trigger] g.west_linked(k),
                forall|e: int| 0 <= e < g.num_edges() ==> #[trigger] g.edge_placed(e),
                forall|e: int|
                    0 <= e < g.num_edges() ==> #[trigger] g.edges@[e].wall.disposition
                        == Disposition::Unknown,
                g.num_edges() <= 2 * g.num_rooms(),
            decreases z_max - z,
        {
            let k = g.rooms.len();
            let ghost old_g = g;
            g.rooms.push(Room { west_edge: x, south_edge: z });
            if z > z_min {
                let e = g.edges.len();
                g.edges.push(
                    InteriorEdge {
                        low: k - 1,
                        high: k,
                        wall: Wall {
                            sw_corner: (x, z),
                            orientation: WallOrientation::ParallelToX,
                            disposition: Disposition::Unknown,
                        },
                    },
                );
                g.south_edge.push(Some(e));
            } else {
                g.south_edge.push(None);
            }
            if x > x_min {
                proof {
                    assert((x - x_min) * depth >= depth) by (nonlinear_arith)
                        requires x - x_min >= 1, depth >= 0;
                }
                let e = g.edges.len();
                g.edges.push(
                    InteriorEdge {
                        low: k - depth,
                        high: k,
                        wall: Wall {
                            sw_corner: (x, z),
                            orientation: WallOrientation::ParallelToZ,
                            disposition: Disposition::Unknown,
                        },
                    },
                );
                g.west_edge.push(Some(e));
            } else {
                g.west_edge.push(None);
            }
            proof {
                assert forall|j: int| 0 <= j < g.num_rooms() implies #[trigger] g.room_placed(j) by {
                    if j < k {
                        assert(old_g.room_placed(j));
                    }
                }
                assert forall|j: int| 0 <= j < g.num_rooms() implies #[trigger] g.south_linked(j) by {
                    if j < k {
                        assert(old_g.south_linked(j));
                    }
                }
                assert forall|j: int| 0 <= j < g.num_rooms() implies #[trigger] g.west_linked(j) by {
                    if j < k {
                        assert(old_g.west_linked(j));
                    } else {
                        if x > x_min {
                            assert((x - x_min) * depth == (x - 1 - x_min) * depth + depth)
                                by (nonlinear_arith);
                        }
                    }
                }
                assert forall|e: int| 0 <= e < g.num_edges() implies #[trigger] g.edge_placed(e) by {
                    if e < old_g.num_edges() {
                        assert(old_g.edge_placed(e));
                    }
                }
            }
            z = z + 1;
        }
        x = x + 1;
    }
    g
}

/// The walls on the rectangle's outline, all standing: for each unit step
/// along `x` one wall on the south and one on the north border, then for
/// each unit step along `z` one on the west and one on the east border.
pub fn border_walls(x_range: &RangeInclusive<i32>, z_range: &RangeInclusive<i32>) -> (walls:
    Vec<Wall>)
    requires
        ranges_ok(*x_range, *z_range),
    ensures
        walls@ == border_walls_spec(
            x_range@.start as int,
            x_range@.end as int,
            z_range@.start as int,
            z_range@.end as int,
        ),
        forall|i: int|
            0 <= i < walls@.len() ==> #[trigger] walls@[i].disposition == Disposition::Present,
{
    let x_min = *x_range.start();
    let x_max = *x_range.end();
    let z_min = *z_range.start();
    let z_max = *z_range.end();
    let ghost target = border_walls_spec(x_min as int, x_max as int, z_min as int, z_max as int);
    let mut walls: Vec<Wall> = Vec::new();
    let mut x: i32 = x_min;
    while x < x_max
        invariant
            x_min <= x <= x_max,
            target == border_walls_spec(x_min as int, x_max as int, z_min as int, z_max as int),
            walls@ == x_border(x_min as int, x as int, z_min as int, z_max as int),
        decreases x_max - x,
    {
        walls.push(Wall { sw_corner: (x, z_min), orientation: WallOrientation::ParallelToX, disposition: Disposition::Present });
        walls.push(Wall { sw_corner: (x, z_max), orientation: WallOrientation::ParallelToX, disposition: Disposition::Present });
        x = x + 1;
    }
    let mut z: i32 = z_min;
    while z < z_max
        invariant
            z_min <= z <= z_max,
            target == border_walls_spec(x_min as int, x_max as int, z_min as int, z_max as int),
            walls@ == x_border(x_min as int, x_max as int, z_min as int, z_max as int) + z_border(
                z_min as int,
                z as int,
                x_min as int,
                x_max as int,
            ),
        decreases z_max - z,
    {
        walls.push(Wall { sw_corner: (x_min, z), orientation: WallOrientation::ParallelToZ, disposition: Disposition::Present });
        walls.push(Wall { sw_corner: (x_max, z), orientation: WallOrientation::ParallelToZ, disposition: Disposition::Present });
        z = z + 1;
    }
    proof {
        lemma_border_present(x_min as int, x_max as int, z_min as int, z_max as int);
    }
    walls
}

/// A standing wall at `(x, z)` with the given orientation.
pub open spec fn standing(x: int, z: int, o: WallOrientation) -> Wall {
    Wall { sw_corner: (x as i32, z as i32), orientation: o, disposition: Disposition::Present }
}

/// South and north border walls for the steps `x_min .. x`.
pub open spec fn x_border(x_min: int, x: int, z_min: int, z_max: int) -> Seq<Wall>
    decreases x - x_min,
{
    if x <= x_min {
        seq![]
    } else {
        x_border(x_min, x - 1, z_min, z_max).push(
            standing(x - 1, z_min, WallOrientation::ParallelToX),
        ).push(standing(x - 1, z_max, WallOrientation::ParallelToX))
    }
}

/// West and east border walls for the steps `z_min .. z`.
pub open spec fn z_border(z_min: int, z: int, x_min: int, x_max: int) -> Seq<Wall>
    decreases z - z_min,
{
    if z <= z_min {
        seq![]
    } else {
        z_border(z_min, z - 1, x_min, x_max).push(
            standing(x_min, z - 1, WallOrientation::ParallelToZ),
        ).push(standing(x_max, z - 1, WallOrientation::ParallelToZ))
    }
}

/// The whole outline of the rectangle.
pub open spec fn border_walls_spec(x_min: int, x_max: int, z_min: int, z_max: int) -> Seq<Wall> {
    x_border(x_min, x_max, z_min, z_max) + z_border(z_min, z_max, x_min, x_max)
}

proof fn lemma_x_border_present(x_min: int, x: int, z_min: int, z_max: int)
    ensures
        forall|i: int|
            0 <= i < x_border(x_min, x, z_min, z_max).len() ==> (#[trigger] x_border(
                x_min,
                x,
                z_min,
                z_max,
            )[i]).disposition == Disposition::Present,
    decreases x - x_min,
{
    if x > x_min {
        lemma_x_border_present(x_min, x - 1, z_min, z_max);
    }
}

proof fn lemma_z_border_present(z_min: int, z: int, x_min: int, x_max: int)
    ensures
        forall|i: int|
            0 <= i < z_border(z_min, z, x_min, x_max).len() ==> (#[trigger] z_border(
                z_min,
                z,
                x_min,
                x_max,
            )[i]).disposition == Disposition::Present,
    decreases z - z_min,
{
    if z > z_min {
        lemma_z_border_present(z_min, z - 1, x_min, x_max);
    }
}

/// Every wall of the outline stands, for every rectangle.
pub proof fn lemma_border_present(x_min: int, x_max: int, z_min: int, z_max: int)
    ensures
        forall|i: int|
            0 <= i < border_walls_spec(x_min, x_max, z_min, z_max).len() ==> (
            #[trigger] border_walls_spec(x_min, x_max, z_min, z_max)[i]).disposition
                == Disposition::Present,
{
    lemma_x_border_present(x_min, x_max, z_min, z_max);
    lemma_z_border_present(z_min, z_max, x_min, x_max);
    let s = border_walls_spec(x_min, x_max, z_min, z_max);
    let a = x_border(x_min, x_max, z_min, z_max);
    assert forall|i: int| 0 <= i < s.len() implies (#[trigger] s[i]).disposition
        == Disposition::Present by {
        if i < a.len() {
            assert(s[i] == a[i]);
        } else {
            assert(s[i] == z_border(z_min, z_max, x_min, x_max)[i - a.len()]);
        }
    }
}

} // verus!
