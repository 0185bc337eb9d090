use announcenet::graph::build_graph;
use announcenet::inputs::{Coordinate, GridMap, TimedCoordinate};

#[test]
fn timed_coordinate_into_coordinate() {
    for x in 0..10 {
        for y in 0..10 {
            let coord = Coordinate { x: x, y: y };
            for t in 0..10 {
                let tc = TimedCoordinate { x: x, y: y, t: t };
                assert_eq!(coord, tc.into());
            }
        }
    }
}

#[test]
fn built_graph_leaves_out_obstacles_but_the_safe_cell() {
    let map = GridMap {
        dimensions: Coordinate { x: 3, y: 3 },
        obstacles: vec![Coordinate { x: 1, y: 1 }, Coordinate { x: 2, y: 2 }],
    };
    let g = build_graph(&map, 2, &Coordinate { x: 1, y: 1 });
    assert!(g.contains_node((1, 1, 0)));
    assert!(g.contains_node((1, 1, 2)));
    assert!(!g.contains_node((2, 2, 1)));
    assert!(!g.contains_node((0, 0, 3)));
    assert!(!g.contains_node((3, 0, 0)));
    let mut next = g.neighbors((1, 1, 0));
    next.sort();
    assert_eq!(next, vec![(0, 1, 1), (1, 0, 1), (1, 1, 1), (1, 2, 1), (2, 1, 1)]);
    let mut corner = g.neighbors((2, 1, 1));
    corner.sort();
    assert_eq!(corner, vec![(1, 1, 2), (2, 0, 2), (2, 1, 2)]);
    assert!(g.neighbors((0, 0, 2)).is_empty());
}

#[test]
fn manhattan_distance_and_adjacency() {
    let a = Coordinate { x: 3, y: 7 };
    let b = Coordinate { x: 5, y: 4 };
    assert_eq!(a.manh_dist(&b), 5);
    assert_eq!(b.manh_dist(&a), 5);
    assert_eq!(a.manh_dist(&a), 0);
    assert!(a.adj(&a));
    assert!(a.adj(&Coordinate { x: 3, y: 8 }));
    assert!(a.adj(&Coordinate { x: 2, y: 7 }));
    assert!(!a.adj(&Coordinate { x: 4, y: 8 }));
    assert!(!a.adj(&b));
    let far = Coordinate { x: 0, y: 65535 };
    assert_eq!(far.manh_dist(&Coordinate { x: 65535, y: 0 }), 131070);
}

#[test]
fn timed_coordinates_are_adjacent_by_their_cells() {
    let a = TimedCoordinate { x: 1, y: 1, t: 0 };
    let b = TimedCoordinate { x: 1, y: 2, t: 9 };
    assert!(a.adj(&b));
    assert_eq!(a.manh_dist(&b), 1);
    assert_eq!(a.manh_dist(&TimedCoordinate { x: 4, y: 5, t: 0 }), 7);
    assert_eq!(a.as_time(5), TimedCoordinate { x: 1, y: 1, t: 5 });
    assert_eq!(a.coordinate(), Coordinate { x: 1, y: 1 });
}

#[test]
fn projection_undoes_as_time() {
    for t in [0usize, 1, 17, usize::MAX] {
        let c = Coordinate { x: 12, y: 34 };
        assert_eq!(Coordinate::from(c.as_time(t)), c);
        assert_eq!(c.as_time(t).t, t);
    }
}

#[test]
fn timed_coordinates_are_ordered_by_their_timestep() {
    let early = TimedCoordinate { x: 9, y: 9, t: 1 };
    let late = TimedCoordinate { x: 0, y: 0, t: 2 };
    assert!(early < late);
    assert!(late > early);
    assert!(!(late < early));
    assert_eq!(early.partial_cmp(&late), Some(std::cmp::Ordering::Less));
    assert_eq!(late.partial_cmp(&early), Some(std::cmp::Ordering::Greater));
    let elsewhere = TimedCoordinate { x: 3, y: 4, t: 1 };
    assert_eq!(early.partial_cmp(&elsewhere), Some(std::cmp::Ordering::Equal));
    assert!(early <= elsewhere && early >= elsewhere);
    assert!(early != elsewhere);
}
