use announcenet::inputs::{
    Agent, AgentPath, Coordinate, GridMap, MapfInstance, MapfSolution, Statistics, TimedCoordinate,
};
use announcenet::utils::extend_stay_in_place;

fn walk(name: &str, cells: &[(u16, u16)]) -> AgentPath {
    AgentPath {
        name: name.to_string(),
        path: cells.iter().enumerate().map(|(t, c)| TimedCoordinate { x: c.0, y: c.1, t }).collect(),
    }
}

fn joint(makespan: usize, schedule: Vec<AgentPath>) -> MapfSolution {
    MapfSolution {
        statistics: Statistics { cost: 0, makespan, highLevelExpanded: 0, lowLevelExpanded: 0 },
        schedule,
    }
}

fn square(side: u16, names: &[&str]) -> MapfInstance {
    MapfInstance {
        agents: names
            .iter()
            .map(|name| Agent {
                name: name.to_string(),
                start: Coordinate { x: 0, y: 0 },
                goal: Coordinate { x: 0, y: 0 },
            })
            .collect(),
        map: GridMap { dimensions: Coordinate { x: side, y: side }, obstacles: Vec::new() },
    }
}

#[test]
fn a_schedule_without_conflicts_is_valid() {
    let solution = joint(
        2,
        vec![walk("a", &[(0, 0), (1, 0), (1, 1)]), walk("b", &[(2, 2), (2, 2), (2, 1)])],
    );
    assert!(solution.has_span());
    assert!(solution.valid(&square(3, &["a", "b"])));
}

#[test]
fn a_vertex_conflict_makes_a_schedule_invalid() {
    let solution = joint(
        2,
        vec![walk("a", &[(0, 0), (1, 0), (1, 1)]), walk("b", &[(1, 2), (1, 2), (1, 1)])],
    );
    assert!(!solution.valid(&square(3, &["a", "b"])));
    let earlier = joint(1, solution.schedule.clone());
    assert!(earlier.valid(&square(3, &["a", "b"])));
}

#[test]
fn an_edge_conflict_makes_a_schedule_invalid() {
    let solution = joint(1, vec![walk("a", &[(0, 0), (1, 0)]), walk("b", &[(1, 0), (0, 0)])]);
    assert!(!solution.valid(&square(3, &["a", "b"])));
    let following = joint(1, vec![walk("a", &[(0, 0), (1, 0)]), walk("b", &[(1, 0), (2, 0)])]);
    assert!(following.valid(&square(3, &["a", "b"])));
}

#[test]
fn a_jump_makes_a_schedule_invalid() {
    let diagonal = joint(1, vec![walk("a", &[(0, 0), (1, 1)])]);
    assert!(!diagonal.valid(&square(3, &["a"])));
    let far = joint(1, vec![walk("a", &[(0, 0), (2, 0)])]);
    assert!(!far.valid(&square(3, &["a"])));
    let after_makespan = joint(1, vec![walk("a", &[(0, 0), (0, 1), (2, 2)])]);
    assert!(after_makespan.valid(&square(3, &["a"])));
}

#[test]
fn a_position_off_the_grid_makes_a_schedule_invalid() {
    let solution = joint(1, vec![walk("a", &[(2, 2), (3, 2)])]);
    assert!(!solution.valid(&square(3, &["a"])));
    assert!(solution.valid(&square(4, &["a"])));
    let last = joint(0, vec![walk("a", &[(0, 3)])]);
    assert!(!last.valid(&square(3, &["a"])));
}

#[test]
fn a_schedule_is_checked_for_its_span() {
    let short = joint(3, vec![walk("a", &[(0, 0), (0, 1), (0, 2), (0, 3)]), walk("b", &[(1, 1)])]);
    assert!(!short.has_span());
    assert_eq!(short.find(&"b".to_string()), Some(1));
    assert_eq!(short.find(&"c".to_string()), None);
}

#[test]
fn inter_observation_time_is_the_longest_unobserved_run() {
    // b is next to a at the times 1 and 5 only
    let solution = joint(
        6,
        vec![
            walk("a", &[(0, 0), (1, 0), (2, 0), (3, 0), (4, 0), (5, 0), (6, 0)]),
            walk("b", &[(0, 2), (1, 1), (2, 2), (3, 2), (4, 2), (5, 1), (6, 2)]),
        ],
    );
    assert_eq!(solution.max_inter_observation_time(&"a".to_string()), 3);
    assert_eq!(solution.max_inter_observation_time(&"b".to_string()), 3);
    let tail = joint(
        4,
        vec![
            walk("a", &[(0, 0), (1, 0), (2, 0), (3, 0), (4, 0)]),
            walk("b", &[(0, 1), (1, 2), (2, 2), (3, 2), (4, 2)]),
        ],
    );
    assert_eq!(tail.max_inter_observation_time(&"a".to_string()), 4);
}

#[test]
fn an_agent_that_is_always_observed_has_no_unobserved_run() {
    let solution = joint(
        2,
        vec![walk("a", &[(0, 0), (1, 0), (2, 0)]), walk("b", &[(0, 1), (1, 1), (2, 1)])],
    );
    assert_eq!(solution.max_inter_observation_time(&"a".to_string()), 0);
    let alone = joint(2, vec![walk("a", &[(0, 0), (1, 0), (2, 0)])]);
    assert_eq!(alone.max_inter_observation_time(&"a".to_string()), 3);
}

#[test]
fn paths_are_extended_by_staying_in_place() {
    let mut solution = joint(
        3,
        vec![
            walk("a", &[(0, 0), (1, 0)]),
            walk("b", &[(2, 2), (2, 1), (2, 0), (3, 0), (4, 0), (4, 1)]),
            walk("c", &[(5, 5), (5, 6), (5, 7), (5, 8)]),
        ],
    );
    extend_stay_in_place(&mut solution);
    assert_eq!(solution.statistics.makespan, 3);
    assert_eq!(solution.schedule[0], walk("a", &[(0, 0), (1, 0), (1, 0), (1, 0), (1, 0)]));
    assert_eq!(
        solution.schedule[1],
        walk("b", &[(2, 2), (2, 1), (2, 0), (3, 0), (4, 0), (4, 1)])
    );
    assert_eq!(solution.schedule[2], walk("c", &[(5, 5), (5, 6), (5, 7), (5, 8), (5, 8)]));
    assert!(solution.schedule.iter().all(|entry| entry.path.len() >= 5));
}

#[test]
fn the_rows_of_the_agents_follow_their_names() {
    let solution = joint(1, vec![walk("b", &[(1, 1), (1, 2)]), walk("a", &[(0, 0), (0, 1)])]);
    let instance = square(3, &["a", "b"]);
    let rows = solution.paths_of(&instance.agents).unwrap();
    assert_eq!(rows[0], vec![Coordinate { x: 0, y: 0 }, Coordinate { x: 0, y: 1 }]);
    assert_eq!(rows[1], vec![Coordinate { x: 1, y: 1 }, Coordinate { x: 1, y: 2 }]);
    assert!(solution.paths_of(&square(3, &["a", "c"]).agents).is_none());
    assert_eq!(solution.cells()[0], vec![Coordinate { x: 1, y: 1 }, Coordinate { x: 1, y: 2 }]);
}
