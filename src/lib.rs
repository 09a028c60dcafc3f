//! Topology of a grid maze: which walls stand between adjacent rooms, and
//! which two rooms lie farthest apart along the carved passages.

pub mod model;
pub mod grid;
pub mod paths;
pub mod carve;
pub mod spawn;
pub mod maze;
mod outside;

pub use carve::choose_walls;
pub use grid::{border_walls, build_room_graph, RoomGraph, MAX_ROOMS};
pub use maze::generate_maze;
pub use model::{Disposition, InteriorEdge, Room, SpawnPositions, Wall, WallOrientation};
pub use spawn::{choose_spawn_positions, farthest_pair, passage_cost};
