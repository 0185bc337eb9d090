use announcenet::cautious::{
    advance, attack_exists, cautious_verdict, defender_observed, guard_cells, move_robot, probe,
    reachable, settle, Finding,
};
use announcenet::cells::{CellSet, TimedSet};
use announcenet::graph::build_graph;
use announcenet::inputs::{Coordinate, GridMap, TimedCoordinate};
use announcenet::plan::Scenario;

fn pos(x: u16, y: u16) -> Coordinate {
    Coordinate { x, y }
}

fn set_of(cells: &[(u16, u16)]) -> CellSet {
    CellSet { cells: cells.iter().map(|c| pos(c.0, c.1)).collect() }
}

fn sorted(set: &CellSet) -> Vec<(u16, u16)> {
    let mut cells: Vec<(u16, u16)> = set.cells.iter().map(|c| (c.x, c.y)).collect();
    cells.sort();
    cells
}

fn two_on_a_row() -> Scenario {
    // on a grid of 4 x 3 two agents walk to the right, on the rows 0 and 2
    Scenario {
        names: vec!["low".to_string(), "high".to_string()],
        map: GridMap { dimensions: pos(4, 3), obstacles: vec![pos(3, 1)] },
        makespan: 3,
        paths: vec![
            vec![pos(0, 0), pos(1, 0), pos(2, 0), pos(3, 0), pos(3, 0)],
            vec![pos(0, 2), pos(1, 2), pos(2, 2), pos(3, 2), pos(3, 2)],
        ],
        horizons: vec![vec![3, 3, 5, 5], vec![1, 2, 3, 4]],
    }
}

#[test]
fn cell_sets_behave_as_sets() {
    let mut s = CellSet::new();
    assert!(s.is_empty());
    s.insert(pos(1, 2));
    s.insert(pos(3, 4));
    s.insert(pos(1, 2));
    assert_eq!(s.cells.len(), 2);
    assert!(s.contains(&pos(1, 2)) && !s.contains(&pos(2, 1)));
    let other = set_of(&[(3, 4), (5, 6)]);
    assert_eq!(sorted(&s.union(&other)), vec![(1, 2), (3, 4), (5, 6)]);
    assert_eq!(sorted(&s.difference(&other)), vec![(1, 2)]);
    assert!(!s.is_disjoint(&other));
    assert!(s.is_disjoint(&set_of(&[(9, 9)])));
    assert!(s.same(&set_of(&[(3, 4), (1, 2)])));
    assert!(!s.same(&other));
    assert!(set_of(&[(1, 2)]).is_subset(&s) && !s.is_subset(&other));
    s.remove(pos(1, 2));
    assert_eq!(sorted(&s), vec![(3, 4)]);
    s.remove(pos(7, 7));
    assert_eq!(sorted(&s.copy()), vec![(3, 4)]);
}

#[test]
fn the_first_cell_counts_through_rows_then_columns() {
    let s = set_of(&[(5, 1), (0, 2), (2, 1), (9, 3)]);
    assert_eq!(s.first(), Some(pos(2, 1)));
    assert_eq!(CellSet::new().first(), None);
    assert_eq!(s.first_common(&set_of(&[(9, 3), (0, 2), (7, 7)])), Some(pos(0, 2)));
    assert_eq!(s.first_common(&set_of(&[(7, 7)])), None);
}

#[test]
fn timed_sets_hold_cells_by_time() {
    let mut s = TimedSet::new();
    s.insert(TimedCoordinate { x: 1, y: 1, t: 2 });
    s.insert(TimedCoordinate { x: 1, y: 1, t: 3 });
    s.insert(TimedCoordinate { x: 1, y: 1, t: 2 });
    assert_eq!(s.items.len(), 2);
    assert!(s.contains(&TimedCoordinate { x: 1, y: 1, t: 3 }));
    assert!(!s.contains(&TimedCoordinate { x: 1, y: 1, t: 4 }));
    s.insert_all(&set_of(&[(0, 0), (1, 1)]), 3);
    assert_eq!(sorted(&s.at(3)), vec![(0, 0), (1, 1)]);
    assert_eq!(sorted(&s.at(2)), vec![(1, 1)]);
    assert!(s.at(5).is_empty());
}

#[test]
fn defenders_observe_the_cells_around_them() {
    let plan = two_on_a_row();
    let floods = vec![set_of(&[(0, 0)]), set_of(&[(1, 1), (3, 2)])];
    let seen = defender_observed(&plan, 0, &floods);
    assert_eq!(
        sorted(&seen),
        vec![
            (0, 0), (0, 1), (0, 2), (1, 0), (1, 1), (1, 2), (2, 0), (2, 1), (2, 2), (2, 3), (3, 1),
            (3, 2), (3, 3), (4, 1), (4, 2), (4, 3)
        ]
    );
    let by_low = defender_observed(&plan, 1, &floods);
    assert_eq!(sorted(&by_low), vec![(0, 0), (0, 1), (1, 0), (1, 1)]);
    assert_eq!(sorted(&guard_cells(&plan, 0, &floods)), vec![(1, 1), (3, 2)]);
    assert_eq!(sorted(&guard_cells(&plan, 1, &floods)), vec![(0, 0)]);
}

#[test]
fn a_free_robot_moves_to_the_neighbours_that_nobody_has_announced() {
    let plan = two_on_a_row();
    let g = build_graph(&plan.map, plan.makespan, &pos(3, 1));
    let none = CellSet::new();
    // at time 0 the agent low has announced where it stands at the times 1 and 2
    let free = move_robot(&plan, &g, &none, pos(1, 1), 0, 0, true);
    assert_eq!(sorted(&free), vec![(0, 1), (1, 1), (1, 2), (2, 1)]);
    let later = move_robot(&plan, &g, &none, pos(1, 1), 0, 2, true);
    assert_eq!(sorted(&later), vec![(0, 1), (1, 0), (1, 1), (1, 2), (2, 1)]);
    let blocked = move_robot(&plan, &g, &set_of(&[(1, 1), (0, 1)]), pos(1, 1), 0, 2, true);
    assert_eq!(sorted(&blocked), vec![(1, 0), (1, 2), (2, 1)]);
    let beyond = move_robot(&plan, &g, &none, pos(0, 0), 0, 7, false);
    assert_eq!(sorted(&beyond), vec![(0, 0), (0, 1), (1, 0)]);
    assert!(move_robot(&plan, &g, &none, pos(9, 9), 0, 0, true).is_empty());
}

#[test]
fn a_robot_does_not_swap_with_an_agent() {
    let plan = two_on_a_row();
    let g = build_graph(&plan.map, plan.makespan, &pos(3, 1));
    let none = CellSet::new();
    // the agent low moves from (0, 0) onto (1, 0), which it has announced: a robot
    // on (1, 0) can neither stay nor go where the agent comes from
    let dodging = move_robot(&plan, &g, &none, pos(1, 0), 0, 0, true);
    assert_eq!(sorted(&dodging), vec![(1, 1), (2, 0)]);
    // the agent high has announced nothing: its next cell stays open, and so does
    // the cell it comes from
    let beside = move_robot(&plan, &g, &none, pos(1, 2), 0, 0, true);
    assert_eq!(sorted(&beside), vec![(0, 2), (1, 1), (1, 2), (2, 2)]);
}

#[test]
fn a_committed_robot_makes_its_announced_move() {
    let plan = two_on_a_row();
    let g = build_graph(&plan.map, plan.makespan, &pos(3, 1));
    let none = CellSet::new();
    let forced = move_robot(&plan, &g, &none, pos(0, 0), 0, 0, false);
    assert_eq!(sorted(&forced), vec![(1, 0)]);
    // the attacker is free: it may stay, but not go where the agent has announced to be
    let attacker = move_robot(&plan, &g, &none, pos(0, 0), 0, 0, true);
    assert_eq!(sorted(&attacker), vec![(0, 0), (0, 1)]);
    // the agent high has announced nothing beyond the next timestep
    let open = move_robot(&plan, &g, &none, pos(0, 2), 0, 0, false);
    assert_eq!(sorted(&open), vec![(0, 1), (0, 2), (1, 2)]);
}

#[test]
fn a_flood_goes_one_step_on_and_records_its_dead_ends() {
    let plan = two_on_a_row();
    let g = build_graph(&plan.map, plan.makespan, &pos(3, 1));
    let mut conflicts = TimedSet::new();
    let grown = reachable(&plan, &g, &set_of(&[(0, 2), (3, 2)]), 0, 0, &mut conflicts, false).unwrap();
    assert_eq!(sorted(&grown), vec![(0, 1), (0, 2), (1, 2), (2, 2), (3, 1), (3, 2)]);
    assert!(conflicts.items.is_empty());
    let stuck = reachable(&plan, &g, &set_of(&[(9, 9), (0, 2), (8, 8)]), 0, 1, &mut conflicts, false);
    assert!(stuck.is_err());
    assert_eq!(conflicts.items, vec![TimedCoordinate { x: 8, y: 8, t: 1 }]);
    let attacker =
        reachable(&plan, &g, &set_of(&[(9, 9), (0, 2), (8, 8)]), 0, 1, &mut conflicts, true).unwrap();
    assert_eq!(sorted(&attacker), vec![(0, 1), (0, 2), (1, 2)]);
    assert_eq!(sorted(&conflicts.at(1)), vec![(8, 8), (9, 9)]);
    conflicts.insert(TimedCoordinate { x: 0, y: 1, t: 2 });
    let around =
        reachable(&plan, &g, &set_of(&[(0, 2)]), 0, 1, &mut conflicts, true).unwrap();
    assert_eq!(sorted(&around), vec![(0, 2), (1, 2)]);
}

#[test]
fn attacker_and_defenders_give_way_to_each_other() {
    let plan = two_on_a_row();
    let x = vec![set_of(&[(1, 1)]), set_of(&[(1, 2), (2, 2)])];
    let y = vec![set_of(&[(1, 1), (1, 2), (2, 1), (0, 1)]), set_of(&[(1, 2), (2, 2), (2, 1), (3, 2)])];
    let z = settle(&plan, 0, &x, &y);
    // the attacker gives up (1, 2), where the defender could be before; the
    // defender gives up (2, 1), which is left to the attacker
    assert_eq!(sorted(&z[0]), vec![(0, 1), (1, 1), (2, 1)]);
    assert_eq!(sorted(&z[1]), vec![(1, 2), (2, 2), (3, 2)]);
}

#[test]
fn floods_advance_together_or_not_at_all() {
    let plan = two_on_a_row();
    let g = build_graph(&plan.map, plan.makespan, &pos(3, 1));
    let mut conflicts = TimedSet::new();
    let x = vec![set_of(&[(0, 0)]), set_of(&[(0, 2)])];
    let next = advance(&plan, &g, 1, &x, 0, 0, &mut conflicts).unwrap();
    assert_eq!(sorted(&next[0]), vec![(1, 0)]);
    assert_eq!(sorted(&next[1]), vec![(0, 1), (0, 2), (1, 2)]);
    assert!(conflicts.items.is_empty());
    let lost = vec![set_of(&[(0, 0)]), set_of(&[(9, 9)])];
    assert!(advance(&plan, &g, 1, &lost, 0, 0, &mut conflicts).is_none());
    assert_eq!(conflicts.items, vec![TimedCoordinate { x: 9, y: 9, t: 0 }]);
}

#[test]
fn an_attack_needs_the_safe_cell_within_reach() {
    let plan = two_on_a_row();
    let g = build_graph(&plan.map, plan.makespan, &pos(3, 1));
    let apart = || vec![set_of(&[(8, 8)]), set_of(&[(2, 1)])];
    let history = vec![apart(), apart(), apart()];
    // the attacker high starts next to the safe cell: one step takes it there
    let mut conflicts = TimedSet::new();
    assert!(attack_exists(&plan, &g, 1, &pos(3, 1), 0, 1, pos(3, 1), &history, &mut conflicts));
    assert!(!attack_exists(&plan, &g, 1, &pos(3, 1), 0, 1, pos(2, 1), &history, &mut conflicts));
    assert!(attack_exists(&plan, &g, 1, &pos(3, 1), 0, 2, pos(2, 1), &history, &mut conflicts));
    assert!(!attack_exists(&plan, &g, 1, &pos(3, 1), 0, 0, pos(3, 1), &history, &mut conflicts));
    // from (2, 1) the safe cell is one step away, but out of reach where it is walled in
    let walled = build_graph(&plan.map, plan.makespan, &pos(9, 9));
    assert!(!attack_exists(&plan, &walled, 1, &pos(3, 1), 0, 2, pos(3, 1), &history, &mut conflicts));
}

#[test]
fn a_watched_attacker_passes_every_root() {
    let mut plan = two_on_a_row();
    plan.paths[1] = vec![pos(0, 1), pos(1, 1), pos(2, 1), pos(3, 1), pos(3, 1)];
    plan.map.obstacles = vec![pos(0, 2)];
    let g = build_graph(&plan.map, plan.makespan, &pos(0, 2));
    let mut conflicts = TimedSet::new();
    assert_eq!(probe(&plan, &g, 0, &pos(0, 2), 0, &mut conflicts, 5), (Finding::Passed, 5));
    assert_eq!(cautious_verdict(&plan, 0, &pos(0, 2), 5), Some(true));
    assert_eq!(cautious_verdict(&plan, 1, &pos(0, 2), 0), Some(true));
}

#[test]
fn floods_that_come_to_rest_apart_expose_the_attacker() {
    // a corridor with a wall in its middle: each agent is shut in on its side
    let mut plan = two_on_a_row();
    plan.map = GridMap { dimensions: pos(9, 1), obstacles: vec![pos(1, 0), pos(4, 0)] };
    plan.paths[0] = vec![pos(0, 0), pos(0, 0), pos(0, 0), pos(0, 0), pos(0, 0)];
    plan.paths[1] = vec![pos(8, 0), pos(8, 0), pos(8, 0), pos(8, 0), pos(8, 0)];
    plan.horizons = vec![vec![1, 2, 3, 4], vec![1, 2, 3, 4]];
    let g = build_graph(&plan.map, plan.makespan, &pos(1, 0));
    let mut conflicts = TimedSet::new();
    assert_eq!(probe(&plan, &g, 0, &pos(1, 0), 0, &mut conflicts, 0), (Finding::Undecided, 0));
    assert_eq!(probe(&plan, &g, 0, &pos(1, 0), 0, &mut conflicts, 3), (Finding::Undecided, 0));
    assert_eq!(probe(&plan, &g, 0, &pos(1, 0), 0, &mut conflicts, 50), (Finding::Exposed, 46));
    assert!(conflicts.items.is_empty());
    assert_eq!(cautious_verdict(&plan, 0, &pos(1, 0), 50), Some(false));
    assert_eq!(cautious_verdict(&plan, 0, &pos(1, 0), 4), Some(false));
    assert_eq!(cautious_verdict(&plan, 0, &pos(1, 0), 3), None);
}

#[test]
fn announcing_less_can_secure_a_pair() {
    // the two agents start on top of each other's column and part ways; only
    // the attacker's horizon at time 2 differs between the two announcements
    let plan_with = |attacker: Vec<usize>| Scenario {
        names: vec!["attacker".to_string(), "defender".to_string()],
        map: GridMap { dimensions: pos(4, 3), obstacles: vec![pos(1, 0)] },
        makespan: 3,
        paths: vec![
            vec![pos(2, 2), pos(2, 2), pos(1, 2), pos(1, 2), pos(0, 2)],
            vec![pos(2, 1), pos(2, 1), pos(3, 1), pos(3, 1), pos(3, 1)],
        ],
        horizons: vec![attacker, vec![1, 2, 5, 5]],
    };
    let more = plan_with(vec![4, 2, 4, 4]);
    let less = plan_with(vec![4, 2, 3, 4]);
    assert_eq!(cautious_verdict(&more, 0, &pos(1, 0), 300), Some(false));
    assert_eq!(cautious_verdict(&less, 0, &pos(1, 0), 300), Some(true));
}

#[test]
fn a_free_robot_that_is_told_less_can_move_no_less() {
    let more = two_on_a_row();
    let mut less = two_on_a_row();
    less.horizons = vec![vec![1, 2, 3, 4], vec![1, 2, 3, 4]];
    let g = build_graph(&more.map, more.makespan, &pos(3, 1));
    let none = CellSet::new();
    for x in 0..4 {
        for y in 0..3 {
            for fut in 0..4 {
                let told_more = move_robot(&more, &g, &none, pos(x, y), 0, fut, true);
                let told_less = move_robot(&less, &g, &none, pos(x, y), 0, fut, true);
                assert!(told_more.is_subset(&told_less));
            }
        }
    }
    let grown = move_robot(&less, &g, &none, pos(1, 0), 0, 0, true);
    assert_eq!(sorted(&grown), vec![(0, 0), (1, 0), (1, 1), (2, 0)]);
}
