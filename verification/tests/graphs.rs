use announcenet::bold::{
    known_deviation, next_position, plan_move, prune_graph, step_towards, weigh_legs, Move,
    Search,
};
use announcenet::graph::{build_graph, TimeGraph};
use announcenet::inputs::{Coordinate, GridMap};
use announcenet::plan::Scenario;
use announcenet::search::Goal;

fn cell(x: u16, y: u16) -> Coordinate {
    Coordinate { x, y }
}

fn lone_walker(path: Vec<Coordinate>, horizons: Vec<usize>, side: u16) -> Scenario {
    Scenario {
        names: vec!["walker".to_string()],
        map: GridMap { dimensions: cell(side, side), obstacles: Vec::new() },
        makespan: horizons.len() - 1,
        paths: vec![path],
        horizons: vec![horizons],
    }
}

fn pair(mitigated_side: u16) -> Scenario {
    // the attacker walks along the row 0, the defender along the row 2
    Scenario {
        names: vec!["attacker".to_string(), "defender".to_string()],
        map: GridMap { dimensions: cell(mitigated_side, mitigated_side), obstacles: Vec::new() },
        makespan: 2,
        paths: vec![
            vec![cell(0, 0), cell(1, 0), cell(2, 0), cell(2, 0)],
            vec![cell(0, 2), cell(1, 2), cell(2, 2), cell(2, 2)],
        ],
        horizons: vec![vec![2, 3, 4], vec![2, 3, 4]],
    }
}

#[test]
fn a_graph_keeps_what_is_added_and_loses_what_is_removed() {
    let mut g = TimeGraph::new();
    assert!(!g.contains_node((0, 0, 0)));
    g.add_node((0, 0, 0));
    assert!(g.contains_node((0, 0, 0)));
    assert!(g.neighbors((0, 0, 0)).is_empty());
    g.add_edge((0, 0, 0), (0, 1, 1));
    g.add_edge((0, 0, 0), (1, 0, 1));
    g.add_edge((0, 1, 1), (0, 2, 2));
    assert!(g.contains_node((0, 1, 1)) && g.contains_node((1, 0, 1)) && g.contains_node((0, 2, 2)));
    let mut next = g.neighbors((0, 0, 0));
    next.sort();
    assert_eq!(next, vec![(0, 1, 1), (1, 0, 1)]);
    assert!(g.neighbors((0, 1, 1)) == vec![(0, 2, 2)]);
    assert!(g.neighbors((0, 2, 2)).is_empty());
    g.remove_edge((0, 0, 0), (1, 0, 1));
    assert_eq!(g.neighbors((0, 0, 0)), vec![(0, 1, 1)]);
    assert!(g.contains_node((1, 0, 1)));
    g.remove_node((0, 1, 1));
    assert!(!g.contains_node((0, 1, 1)));
    assert!(g.neighbors((0, 0, 0)).is_empty());
    assert!(g.contains_node((0, 2, 2)));
    g.remove_node((7, 7, 7));
    assert!(g.contains_node((0, 0, 0)));
}

#[test]
fn a_built_graph_joins_each_cell_to_its_neighbours_one_step_later() {
    let map = GridMap { dimensions: cell(2, 3), obstacles: vec![cell(1, 1)] };
    let g = build_graph(&map, 1, &cell(9, 9));
    for x in 0..2 {
        for y in 0..3 {
            for t in 0..2 {
                assert_eq!(g.contains_node((x, y, t)), (x, y) != (1, 1));
            }
        }
    }
    let mut from_corner = g.neighbors((0, 0, 0));
    from_corner.sort();
    assert_eq!(from_corner, vec![(0, 0, 1), (0, 1, 1), (1, 0, 1)]);
    let mut beside_wall = g.neighbors((0, 1, 0));
    beside_wall.sort();
    assert_eq!(beside_wall, vec![(0, 0, 1), (0, 1, 1), (0, 2, 1)]);
    assert!(g.neighbors((0, 0, 1)).is_empty());
    assert!(g.neighbors((1, 1, 0)).is_empty());
    let empty = build_graph(&GridMap { dimensions: cell(0, 4), obstacles: Vec::new() }, 3, &cell(0, 0));
    assert!(!empty.contains_node((0, 0, 0)));
}

#[test]
fn pruning_removes_what_the_defender_has_announced() {
    let plan = pair(3);
    let mut g = build_graph(&plan.map, plan.makespan, &cell(9, 9));
    prune_graph(&mut g, &plan, 0, 0, false);
    // at time 0 the defender has disclosed its position at time 1 only
    assert!(!g.contains_node((1, 2, 1)));
    assert!(g.contains_node((0, 2, 0)));
    assert!(g.contains_node((1, 1, 1)) && g.contains_node((0, 2, 1)) && g.contains_node((2, 2, 1)));
    assert!(g.contains_node((2, 2, 2)));
    assert!(g.contains_node((1, 0, 1)));
    let mut into_row = g.neighbors((1, 2, 0));
    into_row.sort();
    assert_eq!(into_row, vec![(0, 2, 1), (1, 1, 1), (2, 2, 1)]);
    prune_graph(&mut g, &plan, 0, 1, false);
    assert!(!g.contains_node((2, 2, 2)));
    assert!(g.contains_node((2, 1, 2)));
    // the attacker's own positions are never pruned
    assert!(g.contains_node((1, 0, 1)) && g.contains_node((2, 0, 2)));
}

#[test]
fn pruning_under_mitigation_removes_the_cells_next_to_the_defender() {
    let mut plan = pair(3);
    plan.paths[1] = vec![cell(0, 1), cell(1, 1), cell(2, 1), cell(2, 1)];
    let mut g = build_graph(&plan.map, plan.makespan, &cell(9, 9));
    prune_graph(&mut g, &plan, 0, 0, true);
    assert!(!g.contains_node((1, 1, 1)));
    assert!(!g.contains_node((0, 1, 1)) && !g.contains_node((2, 1, 1)) && !g.contains_node((1, 2, 1)));
    // next to the defender, but where the attacker is expected
    assert!(g.contains_node((1, 0, 1)));
    assert!(g.contains_node((0, 0, 1)) && g.contains_node((2, 0, 1)) && g.contains_node((0, 2, 1)));
    assert!(g.contains_node((1, 1, 0)) && g.contains_node((1, 1, 2)));
    let mut other = build_graph(&plan.map, plan.makespan, &cell(9, 9));
    prune_graph(&mut other, &plan, 1, 0, true);
    // with the roles exchanged the second agent's positions stay
    assert!(other.contains_node((1, 1, 1)));
    assert!(!other.contains_node((1, 0, 1)) && !other.contains_node((0, 0, 1)));
}

#[test]
fn an_attacker_that_has_been_on_the_safe_cell_heads_back_to_its_plan() {
    // a corridor of one row: the only way back is to the right
    let plan = lone_walker(
        vec![cell(0, 0), cell(1, 0), cell(2, 0), cell(3, 0), cell(3, 0), cell(3, 0)],
        vec![9, 9, 9, 9, 9],
        4,
    );
    let mut corridor = plan;
    corridor.map = GridMap { dimensions: cell(4, 1), obstacles: Vec::new() };
    let g = build_graph(&corridor.map, corridor.makespan, &cell(0, 0));
    match plan_move(&g, &corridor, 0, (0, 0, 1), cell(0, 0), 1, true) {
        Move::To(next) => assert_eq!(next, (1, 0, 2)),
        Move::Done => panic!("an attacker that has been on the safe cell goes on"),
    }
    // at the makespan there is no way on: the attacker stays
    match plan_move(&g, &corridor, 0, (2, 0, 4), cell(0, 0), 4, true) {
        Move::To(next) => assert_eq!(next, (2, 0, 4)),
        Move::Done => panic!("an attacker that has been on the safe cell goes on"),
    }
}

#[test]
fn an_attacker_heads_for_the_safe_cell_where_no_observation_is_known() {
    let mut plan = lone_walker(
        vec![cell(0, 0), cell(0, 0), cell(0, 0), cell(0, 0), cell(0, 0), cell(0, 0)],
        vec![1, 2, 3, 4, 5],
        4,
    );
    plan.map = GridMap { dimensions: cell(4, 1), obstacles: vec![cell(3, 0)] };
    let g = build_graph(&plan.map, plan.makespan, &cell(3, 0));
    match plan_move(&g, &plan, 0, (0, 0, 0), cell(3, 0), 0, false) {
        Move::To(next) => assert_eq!(next, (1, 0, 1)),
        Move::Done => panic!("nothing is known beyond the next timestep"),
    }
    // the safe cell is out of reach before the makespan: the first neighbour is taken
    match plan_move(&g, &plan, 0, (0, 0, 3), cell(3, 0), 3, false) {
        Move::To(next) => assert_eq!(next, (0, 0, 4)),
        Move::Done => panic!("nothing is known beyond the next timestep"),
    }
}

#[test]
fn an_attacker_that_knows_a_way_out_and_back_is_done() {
    // the walker waits on (0, 0) and has disclosed all of it; the safe cell is next door
    let mut plan = lone_walker(
        vec![cell(0, 0), cell(0, 0), cell(0, 0), cell(0, 0), cell(0, 0), cell(0, 0)],
        vec![6, 6, 6, 6, 6],
        2,
    );
    plan.map = GridMap { dimensions: cell(2, 1), obstacles: vec![cell(1, 0)] };
    let g = build_graph(&plan.map, plan.makespan, &cell(1, 0));
    assert!(matches!(plan_move(&g, &plan, 0, (0, 0, 0), cell(1, 0), 0, false), Move::Done));
    // with the safe cell walled in there is no way out
    let walled = build_graph(&plan.map, plan.makespan, &cell(5, 5));
    match plan_move(&walled, &plan, 0, (0, 0, 0), cell(1, 0), 0, false) {
        Move::To(next) => assert_eq!(next, (0, 0, 1)),
        Move::Done => panic!("the safe cell cannot be reached"),
    }
}

#[test]
fn the_next_position_follows_the_route_or_the_first_neighbour() {
    let route = Some(vec![(1, 1, 0), (1, 2, 1), (1, 3, 2)]);
    let neighbors = vec![(2, 1, 1), (1, 1, 1), (0, 1, 1), (1, 0, 1), (3, 0, 1)];
    assert_eq!(next_position(&route, &neighbors, (1, 1, 0), 0), (1, 2, 1));
    assert_eq!(next_position(&None, &neighbors, (1, 1, 0), 0), (1, 0, 1));
    assert_eq!(next_position(&None, &vec![(2, 1, 1), (0, 1, 1)], (1, 1, 0), 0), (0, 1, 1));
    assert_eq!(next_position(&None, &Vec::new(), (1, 1, 0), 3), (1, 1, 3));
}

#[test]
fn goals_are_met_by_cell_and_time() {
    let plan = lone_walker(vec![cell(0, 0), cell(1, 0), cell(2, 0), cell(2, 0)], vec![3, 3, 3], 3);
    let reach = Goal::Reach { cell: cell(2, 0), later_than: Some(1) };
    assert!(reach.accepts(&plan, (2, 0, 2)));
    assert!(!reach.accepts(&plan, (2, 0, 1)));
    assert!(!reach.accepts(&plan, (1, 0, 2)));
    assert_eq!(reach.estimate(&plan, (0, 1, 0)), 3);
    assert_eq!(reach.step_cost(), 1);
    let rejoin = Goal::Rejoin { agent: 0, later_than: Some(0), until: Some(2), horizon: 2 };
    assert!(rejoin.accepts(&plan, (1, 0, 1)));
    assert!(!rejoin.accepts(&plan, (0, 0, 0)));
    assert!(!rejoin.accepts(&plan, (2, 0, 2)));
    assert!(!rejoin.accepts(&plan, (0, 0, 1)));
    assert!(!rejoin.accepts(&plan, (2, 0, 9)));
    assert_eq!(rejoin.estimate(&plan, (1, 3, 1)), 1);
    assert_eq!(rejoin.estimate(&plan, (1, 3, 0)), 2);
    assert_eq!(rejoin.estimate(&plan, (1, 3, 2)), 0);
}

#[test]
fn a_known_deviation_is_out_and_back_in_time() {
    // the walker waits on (0, 0); the safe cell is next door
    let mut plan = lone_walker(
        vec![cell(0, 0), cell(0, 0), cell(0, 0), cell(0, 0), cell(0, 0), cell(0, 0)],
        vec![6, 6, 6, 6, 6],
        2,
    );
    plan.map = GridMap { dimensions: cell(2, 1), obstacles: vec![cell(1, 0)] };
    let g = build_graph(&plan.map, plan.makespan, &cell(1, 0));
    assert!(known_deviation(&g, &plan, 0, (0, 0, 0), cell(1, 0), 0, 3));
    assert!(known_deviation(&g, &plan, 0, (0, 0, 0), cell(1, 0), 0, 2));
    // the safe cell is reached at time 1 at the earliest: too late for these bounds
    assert!(!known_deviation(&g, &plan, 0, (0, 0, 0), cell(1, 0), 0, 1));
    assert!(!known_deviation(&g, &plan, 0, (0, 0, 0), cell(1, 0), 0, 0));
    assert!(!known_deviation(&g, &plan, 0, (0, 0, 2), cell(1, 0), 2, 2));
    // from the time 3 on there is no time left to come back within the makespan
    assert!(known_deviation(&g, &plan, 0, (0, 0, 2), cell(1, 0), 2, 4));
    assert!(!known_deviation(&g, &plan, 0, (0, 0, 3), cell(1, 0), 3, 9));
    // with the safe cell walled in no route arrives on it
    let walled = build_graph(&plan.map, plan.makespan, &cell(5, 5));
    assert!(!known_deviation(&walled, &plan, 0, (0, 0, 0), cell(1, 0), 0, 3));
    // an attacker whose horizon ends at once cannot be back before it
    plan.horizons = vec![vec![1, 2, 3, 4, 5]];
    assert!(!known_deviation(&g, &plan, 0, (0, 0, 0), cell(1, 0), 0, 4));
}

#[test]
fn the_search_weighs_what_its_routes_came_to() {
    assert!(matches!(weigh_legs(None, false, 5), Search::GaveUp));
    assert!(matches!(weigh_legs(None, true, 5), Search::GaveUp));
    assert!(matches!(weigh_legs(Some((1, 0, 5)), true, 5), Search::GaveUp));
    assert!(matches!(weigh_legs(Some((1, 0, 9)), true, 5), Search::GaveUp));
    assert!(matches!(weigh_legs(Some((1, 0, 4)), true, 5), Search::Found));
    assert!(matches!(weigh_legs(Some((1, 0, 4)), false, 5), Search::Later((1, 0, 4))));
    assert!(matches!(weigh_legs(Some((1, 0, 0)), false, 0), Search::GaveUp));
}

#[test]
fn a_step_is_taken_on_a_shortest_route() {
    // on an open grid the safe cell can be reached in two steps, or later by a detour
    let mut plan = lone_walker(
        vec![cell(0, 0), cell(0, 0), cell(0, 0), cell(0, 0), cell(0, 0), cell(0, 0)],
        vec![1, 2, 3, 4, 5],
        3,
    );
    plan.map = GridMap { dimensions: cell(3, 2), obstacles: vec![cell(2, 0)] };
    let g = build_graph(&plan.map, plan.makespan, &cell(2, 0));
    let straight = Goal::Reach { cell: cell(2, 0), later_than: None };
    assert_eq!(step_towards(&g, &plan, &straight, (0, 0, 0), 0), (1, 0, 1));
    assert_eq!(step_towards(&g, &plan, &straight, (1, 0, 1), 1), (2, 0, 2));
    // back to a plan that waits on (0, 0): one step from next door
    let back = Goal::Rejoin { agent: 0, later_than: Some(1), until: None, horizon: 9 };
    assert_eq!(step_towards(&g, &plan, &back, (1, 0, 1), 1), (0, 0, 2));
}
