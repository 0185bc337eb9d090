use announcenet::inputs::{
    Agent, AgentHorizons, AgentPath, Announcements, Coordinate, Fraction, GridMap, MapfInstance,
    MapfSolution, Statistics, TimedCoordinate,
};
use announcenet::utils::{
    compute_kahead_announcements, compute_kgrouped_announcements, compute_robust_announcements,
};

fn hundred_agents() -> Vec<Agent> {
    (0..100)
        .map(|i| Agent {
            goal: Coordinate { x: i, y: i },
            start: Coordinate { x: i, y: i },
            name: i.to_string(),
        })
        .collect()
}

fn horizons_of(rows: Vec<Vec<usize>>) -> Announcements {
    Announcements {
        schedule: rows
            .into_iter()
            .enumerate()
            .map(|(i, horizons)| AgentHorizons { name: format!("agent{}", i), horizons })
            .collect(),
    }
}

#[test]
fn min_inter_announcement_time() {
    let agents: Vec<Agent> = hundred_agents();
    let announcements = compute_kgrouped_announcements(&agents, 10, 100);
    assert_eq!(10, announcements.min_inter_announcement_time());
}

#[test]
fn min_lookahead() {
    let agents: Vec<Agent> = hundred_agents();
    let announcements = compute_kahead_announcements(&agents, 10, 100);
    assert_eq!(10, announcements.min_lookahead());
}

#[test]
fn robust_announcement_two_agents_following_each_other() {
    let instance = MapfInstance {
        agents: vec![
            Agent {
                name: "agent0".to_string(),
                start: Coordinate { x: 1, y: 3 },
                goal: Coordinate { x: 9, y: 9 },
            },
            Agent {
                name: "agent1".to_string(),
                start: Coordinate { x: 1, y: 0 },
                goal: Coordinate { x: 8, y: 8 },
            },
            Agent {
                name: "agent2".to_string(),
                start: Coordinate { x: 3, y: 3 },
                goal: Coordinate { x: 7, y: 7 },
            },
        ],
        map: GridMap { dimensions: Coordinate { x: 10, y: 10 }, obstacles: Vec::new() },
    };
    let schedule = vec![
        AgentPath {
            name: "agent0".to_string(),
            path: vec![
                TimedCoordinate { x: 1, y: 3, t: 0 },
                TimedCoordinate { x: 1, y: 3, t: 1 },
                TimedCoordinate { x: 2, y: 3, t: 2 },
                TimedCoordinate { x: 2, y: 3, t: 3 },
                TimedCoordinate { x: 3, y: 3, t: 4 },
                TimedCoordinate { x: 3, y: 3, t: 5 },
            ],
        },
        AgentPath {
            name: "agent1".to_string(),
            path: vec![
                TimedCoordinate { x: 1, y: 0, t: 0 },
                TimedCoordinate { x: 1, y: 1, t: 1 },
                TimedCoordinate { x: 1, y: 2, t: 2 },
                TimedCoordinate { x: 1, y: 3, t: 3 },
                TimedCoordinate { x: 1, y: 4, t: 4 },
                TimedCoordinate { x: 1, y: 5, t: 5 },
            ],
        },
        AgentPath {
            name: "agent2".to_string(),
            path: vec![
                TimedCoordinate { x: 3, y: 3, t: 0 },
                TimedCoordinate { x: 3, y: 2, t: 1 },
                TimedCoordinate { x: 3, y: 3, t: 2 },
                TimedCoordinate { x: 3, y: 2, t: 3 },
                TimedCoordinate { x: 3, y: 2, t: 4 },
                TimedCoordinate { x: 3, y: 2, t: 5 },
            ],
        },
    ];
    let solution = MapfSolution {
        schedule: schedule,
        statistics: Statistics { cost: 0, makespan: 5, highLevelExpanded: 0, lowLevelExpanded: 0 },
    };
    let announcements = compute_robust_announcements(&instance, &solution);
    println!("{:?}", announcements);
    assert_eq!(announcements.schedule[0].name, "agent0");
    assert!(announcements.schedule[0].horizons[0] > 3);
    assert_eq!(announcements.schedule[0].horizons, vec![4, 4, 4, 6, 6, 6]);
    assert_eq!(announcements.schedule[1].horizons, vec![3, 3, 6, 6, 6, 6]);
    assert_eq!(announcements.schedule[2].horizons, vec![6, 6, 6, 6, 6, 6]);
}

#[test]
fn kahead_discloses_a_rolling_window() {
    let agents: Vec<Agent> = hundred_agents().into_iter().take(2).collect();
    let announcements = compute_kahead_announcements(&agents, 3, 4);
    assert_eq!(announcements.schedule.len(), 2);
    assert_eq!(announcements.schedule[0].name, "0");
    assert_eq!(announcements.schedule[1].name, "1");
    assert_eq!(announcements.schedule[0].horizons, vec![4, 5, 6, 7, 8]);
    assert_eq!(announcements.schedule[1].horizons, vec![4, 5, 6, 7, 8]);
    assert_eq!(announcements.min_lookahead(), 3);
    assert_eq!(announcements.min_inter_announcement_time(), 1);
    assert!(announcements.is_ahead());
    assert!(announcements.is_uniform());
}

#[test]
fn kahead_with_a_window_beyond_the_makespan_keeps_its_lookahead() {
    let agents: Vec<Agent> = hundred_agents().into_iter().take(3).collect();
    let announcements = compute_kahead_announcements(&agents, 50, 4);
    assert_eq!(announcements.min_lookahead(), 50);
    assert_eq!(announcements.min_inter_announcement_time(), 1);
    let single = compute_kahead_announcements(&agents, 0, 0);
    assert_eq!(single.schedule[0].horizons, vec![1]);
    assert_eq!(single.min_inter_announcement_time(), 1);
    assert_eq!(single.min_lookahead(), 0);
}

#[test]
fn kgrouped_discloses_block_by_block() {
    let agents: Vec<Agent> = hundred_agents().into_iter().take(1).collect();
    let announcements = compute_kgrouped_announcements(&agents, 3, 7);
    assert_eq!(announcements.schedule[0].horizons, vec![4, 4, 4, 7, 7, 7, 10, 10]);
    assert_eq!(announcements.min_inter_announcement_time(), 3);
    assert_eq!(announcements.min_lookahead(), 1);
    let every_step = compute_kgrouped_announcements(&agents, 1, 3);
    assert_eq!(every_step.schedule[0].horizons, vec![2, 3, 4, 5]);
    assert_eq!(every_step.min_inter_announcement_time(), 1);
}

#[test]
fn kgrouped_with_one_block_never_announces_again() {
    let agents: Vec<Agent> = hundred_agents().into_iter().take(2).collect();
    let whole = compute_kgrouped_announcements(&agents, 5, 4);
    assert_eq!(whole.schedule[0].horizons, vec![6, 6, 6, 6, 6]);
    assert_eq!(whole.min_inter_announcement_time(), 5);
    let longer = compute_kgrouped_announcements(&agents, 9, 4);
    assert_eq!(longer.schedule[1].horizons, vec![10, 10, 10, 10, 10]);
    assert_eq!(longer.min_inter_announcement_time(), 5);
}

#[test]
fn inter_announcement_time_counts_from_the_start() {
    let announcements = horizons_of(vec![vec![3, 3, 3, 3, 9, 9, 9], vec![2, 2, 2, 2, 2, 2, 8]]);
    assert_eq!(announcements.min_inter_announcement_time(), 2);
    let late = horizons_of(vec![vec![5, 5, 5, 5, 5, 6]]);
    assert_eq!(late.min_inter_announcement_time(), 5);
    let never = horizons_of(vec![vec![9, 9, 9, 9]]);
    assert_eq!(never.min_inter_announcement_time(), 4);
}

#[test]
fn lookahead_is_taken_over_all_agents_and_timesteps() {
    let announcements = horizons_of(vec![vec![3, 4, 5], vec![4, 2, 7]]);
    assert_eq!(announcements.min_lookahead(), 0);
    assert_eq!(announcements.avg_lookahead(), Some(Fraction { numerator: 2 + 2 + 2 + 3 + 0 + 4, denominator: 6 }));
    let wide = horizons_of(vec![vec![10, 10], vec![20, 20]]);
    assert_eq!(wide.min_lookahead(), 8);
    assert_eq!(wide.avg_lookahead(), Some(Fraction { numerator: 9 + 8 + 19 + 18, denominator: 4 }));
}

#[test]
fn lookahead_of_no_horizon_at_all() {
    let empty = horizons_of(vec![vec![], vec![]]);
    assert_eq!(empty.min_lookahead(), 0);
    assert_eq!(empty.avg_lookahead(), None);
    assert!(empty.is_uniform());
    let nobody = horizons_of(vec![]);
    assert_eq!(nobody.avg_lookahead(), None);
    assert!(!nobody.is_uniform());
}

#[test]
fn mean_lookahead_that_does_not_fit_is_none() {
    let huge = horizons_of(vec![vec![usize::MAX, usize::MAX]]);
    assert_eq!(huge.avg_lookahead(), None);
    let fits = horizons_of(vec![vec![usize::MAX]]);
    assert_eq!(fits.avg_lookahead(), Some(Fraction { numerator: usize::MAX - 1, denominator: 1 }));
}

#[test]
fn horizons_are_checked_for_shape() {
    let ragged = horizons_of(vec![vec![1, 2], vec![1]]);
    assert!(!ragged.is_uniform());
    let behind = horizons_of(vec![vec![1, 1]]);
    assert!(!behind.is_ahead());
    let fine = horizons_of(vec![vec![1, 2], vec![5, 5]]);
    assert!(fine.is_uniform() && fine.is_ahead());
    assert_eq!(fine.find(&"agent1".to_string()), Some(1));
    assert_eq!(fine.find(&"agent7".to_string()), None);
}

#[test]
fn robust_horizon_is_carried_while_it_reaches_ahead() {
    let instance = MapfInstance {
        agents: vec![
            Agent {
                name: "a".to_string(),
                start: Coordinate { x: 0, y: 0 },
                goal: Coordinate { x: 3, y: 0 },
            },
            Agent {
                name: "b".to_string(),
                start: Coordinate { x: 3, y: 1 },
                goal: Coordinate { x: 3, y: 1 },
            },
        ],
        map: GridMap { dimensions: Coordinate { x: 5, y: 5 }, obstacles: Vec::new() },
    };
    let cells_a = [(0, 0), (1, 0), (2, 0), (3, 0), (3, 0)];
    let cells_b = [(3, 1), (3, 0), (4, 0), (4, 1), (4, 1)];
    let solution = MapfSolution {
        statistics: Statistics { cost: 0, makespan: 4, highLevelExpanded: 0, lowLevelExpanded: 0 },
        schedule: vec![
            AgentPath {
                name: "b".to_string(),
                path: cells_b
                    .iter()
                    .enumerate()
                    .map(|(t, c)| TimedCoordinate { x: c.0, y: c.1, t })
                    .collect(),
            },
            AgentPath {
                name: "a".to_string(),
                path: cells_a
                    .iter()
                    .enumerate()
                    .map(|(t, c)| TimedCoordinate { x: c.0, y: c.1, t })
                    .collect(),
            },
        ],
    };
    let announcements = compute_robust_announcements(&instance, &solution);
    assert_eq!(announcements.schedule[0].name, "a");
    assert_eq!(announcements.schedule[1].name, "b");
    // b crosses (3, 0) at time 1, a stands there at time 3: at time 0 a withholds
    // its position at time 3, and keeps doing so at time 1.
    assert_eq!(announcements.schedule[0].horizons, vec![3, 3, 5, 5, 5]);
    assert_eq!(announcements.schedule[1].horizons, vec![5, 5, 5, 5, 5]);
    assert!(announcements.is_ahead());
    assert_eq!(announcements.min_lookahead(), 0);
}
