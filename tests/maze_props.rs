use maze_gen::{
    border_walls, build_room_graph, choose_spawn_positions, choose_walls, farthest_pair,
    generate_maze, passage_cost, Disposition, Room, RoomGraph, Wall, WallOrientation,
};

fn open_count(g: &RoomGraph) -> usize {
    g.edges
        .iter()
        .filter(|e| e.wall.disposition == Disposition::Absent)
        .count()
}

/// Breadth-first distances from `from` over open passages.
fn distances_from(g: &RoomGraph, from: usize) -> Vec<Option<usize>> {
    let n = g.rooms.len();
    let mut dist = vec![None; n];
    dist[from] = Some(0);
    let mut queue = vec![from];
    let mut head = 0;
    while head < queue.len() {
        let r = queue[head];
        head += 1;
        for e in &g.edges {
            if e.wall.disposition != Disposition::Absent {
                continue;
            }
            let other = if e.low == r {
                e.high
            } else if e.high == r {
                e.low
            } else {
                continue;
            };
            if dist[other].is_none() {
                dist[other] = Some(dist[r].unwrap() + 1);
                queue.push(other);
            }
        }
    }
    dist
}

fn index_of(g: &RoomGraph, r: Room) -> usize {
    g.rooms.iter().position(|x| *x == r).unwrap()
}

fn assert_spanning_tree(g: &RoomGraph) {
    let n = g.rooms.len();
    assert_eq!(open_count(g), n - 1);
    for e in &g.edges {
        assert_ne!(e.wall.disposition, Disposition::Unknown);
    }
    for a in 0..n {
        let d = distances_from(g, a);
        assert!(d.iter().all(|x| x.is_some()));
    }
}

#[test]
fn border_walls_of_two_by_two() {
    let walls = border_walls(&(0..=2), &(0..=2));
    let x = WallOrientation::ParallelToX;
    let z = WallOrientation::ParallelToZ;
    let p = Disposition::Present;
    let expected = vec![
        Wall { sw_corner: (0, 0), orientation: x, disposition: p },
        Wall { sw_corner: (0, 2), orientation: x, disposition: p },
        Wall { sw_corner: (1, 0), orientation: x, disposition: p },
        Wall { sw_corner: (1, 2), orientation: x, disposition: p },
        Wall { sw_corner: (0, 0), orientation: z, disposition: p },
        Wall { sw_corner: (2, 0), orientation: z, disposition: p },
        Wall { sw_corner: (0, 1), orientation: z, disposition: p },
        Wall { sw_corner: (2, 1), orientation: z, disposition: p },
    ];
    assert_eq!(walls, expected);
}

#[test]
fn border_walls_always_present() {
    let walls = border_walls(&(-3..=4), &(2..=5));
    assert_eq!(walls.len(), 2 * 7 + 2 * 3);
    assert!(walls.iter().all(|w| w.disposition == Disposition::Present));
}

#[test]
fn room_graph_of_three_by_two() {
    let g = build_room_graph(&(1..=4), &(-1..=1));
    assert_eq!(g.rooms.len(), 6);
    assert_eq!(g.rooms[0], Room { west_edge: 1, south_edge: -1 });
    assert_eq!(g.rooms[1], Room { west_edge: 1, south_edge: 0 });
    assert_eq!(g.rooms[2], Room { west_edge: 2, south_edge: -1 });
    // 3 columns with 1 vertical neighbour pair each, 2 rows with 2 pairs each.
    assert_eq!(g.edges.len(), 3 + 4);
    assert!(g.edges.iter().all(|e| e.wall.disposition == Disposition::Unknown));
    let e = g.south_edge[1].unwrap();
    assert_eq!((g.edges[e].low, g.edges[e].high), (0, 1));
    assert_eq!(g.edges[e].wall.sw_corner, (1, 0));
    assert_eq!(g.edges[e].wall.orientation, WallOrientation::ParallelToX);
    let w = g.west_edge[2].unwrap();
    assert_eq!((g.edges[w].low, g.edges[w].high), (0, 2));
    assert_eq!(g.edges[w].wall.orientation, WallOrientation::ParallelToZ);
    assert!(g.south_edge[0].is_none() && g.west_edge[0].is_none());
}

#[test]
fn single_room_graph_has_no_edges() {
    let g = build_room_graph(&(5..=6), &(7..=8));
    assert_eq!(g.rooms, vec![Room { west_edge: 5, south_edge: 7 }]);
    assert!(g.edges.is_empty());
}

#[test]
fn carving_gives_spanning_tree() {
    for seed in [0u64, 1, 2, 3, 0xaaaa_aaaa, u64::MAX] {
        let g = choose_walls(&(-4..=3), &(0..=5), seed);
        assert_eq!(g.rooms.len(), 35);
        assert_spanning_tree(&g);
    }
}

#[test]
fn carving_resolves_every_wall() {
    let g = choose_walls(&(0..=6), &(0..=6), 17);
    assert!(g.edges.iter().all(|e| e.wall.disposition != Disposition::Unknown));
    assert_eq!(g.edges.len(), 2 * 6 * 5);
}

#[test]
fn generation_is_deterministic() {
    let a = generate_maze(&(-5..=5), &(-5..=5), 0xaaaa_aaaa);
    let b = generate_maze(&(-5..=5), &(-5..=5), 0xaaaa_aaaa);
    assert_eq!(a.0, b.0);
    assert_eq!(a.1, b.1);
    let ga = choose_walls(&(0..=4), &(0..=3), 99);
    let gb = choose_walls(&(0..=4), &(0..=3), 99);
    assert_eq!(ga.edges, gb.edges);
}

#[test]
fn spawn_rooms_are_farthest_apart() {
    for seed in [4u64, 5, 6] {
        let g = choose_walls(&(0..=5), &(0..=4), seed);
        let sp = choose_spawn_positions(&g);
        let n = g.rooms.len();
        let s = index_of(&g, sp.start);
        let t = index_of(&g, sp.goal);
        let best = distances_from(&g, s)[t].unwrap();
        for a in 0..n {
            let d = distances_from(&g, a);
            for b in 0..n {
                assert!(d[b].unwrap() <= best);
            }
        }
    }
}

#[test]
fn single_room_maze() {
    let (walls, sp) = generate_maze(&(0..=1), &(0..=1), 7);
    assert_eq!(walls.len(), 4);
    assert!(walls.iter().all(|w| w.disposition == Disposition::Present));
    assert_eq!(sp.start, sp.goal);
    assert_eq!(sp.start, Room { west_edge: 0, south_edge: 0 });
}

#[test]
fn four_room_maze() {
    let (walls, sp) = generate_maze(&(0..=2), &(0..=2), 12345);
    assert_eq!(walls.len(), 8 + 4);
    assert_eq!(walls[..8].to_vec(), border_walls(&(0..=2), &(0..=2)));
    let open = walls[8..]
        .iter()
        .filter(|w| w.disposition == Disposition::Absent)
        .count();
    assert_eq!(open, 3);
    // A spanning tree of the four-room cycle is a path over all four rooms;
    // its ends are three passages apart.
    let g = choose_walls(&(0..=2), &(0..=2), 12345);
    let s = index_of(&g, sp.start);
    let t = index_of(&g, sp.goal);
    assert_eq!(distances_from(&g, s)[t], Some(3));
}

#[test]
fn corridor_spawns_at_both_ends() {
    let (walls, sp) = generate_maze(&(0..=1), &(0..=3), 3);
    assert_eq!(walls.len(), 2 + 6 + 2);
    assert!(walls[8..].iter().all(|w| w.disposition == Disposition::Absent));
    assert_eq!(sp.start, Room { west_edge: 0, south_edge: 0 });
    assert_eq!(sp.goal, Room { west_edge: 0, south_edge: 2 });
}

#[test]
fn farthest_pair_takes_first_maximum() {
    let d = vec![vec![0, 1, 2], vec![1, 0, 1], vec![2, 1, 0]];
    assert_eq!(farthest_pair(&d), (0, 2));
    let e = vec![vec![5]];
    assert_eq!(farthest_pair(&e), (0, 0));
    let f = vec![vec![0, 3], vec![4, 0]];
    assert_eq!(farthest_pair(&f), (1, 0));
}

#[test]
fn passage_costs() {
    assert_eq!(passage_cost(Disposition::Absent), 1);
    assert_eq!(passage_cost(Disposition::Present), u32::MAX);
    assert_eq!(passage_cost(Disposition::Unknown), u32::MAX);
}
