use announcenet::bold::{simulate, Ending};
use announcenet::experiments::{
    attempt_pairs, run_bold_attempt, run_bold_attempts, run_cautious_analysis, run_cautious_attempt,
    BoldAttemptResult, BoldExperimentResult, CautiousAttemptResult, CautiousExperimentResult,
};
use announcenet::inputs::{
    Agent, AgentPath, Announcements, Coordinate, Fraction, GridMap, MapfInstance, MapfSolution,
    Statistics, TimedCoordinate,
};
use announcenet::plan::{ready, Scenario};
use announcenet::utils::{compute_kahead_announcements, extend_stay_in_place};

fn at(x: u16, y: u16) -> Coordinate {
    Coordinate { x, y }
}

fn agent(name: &str, start: (u16, u16), goal: (u16, u16)) -> Agent {
    Agent { name: name.to_string(), start: at(start.0, start.1), goal: at(goal.0, goal.1) }
}

fn route(name: &str, cells: &[(u16, u16)]) -> AgentPath {
    AgentPath {
        name: name.to_string(),
        path: cells.iter().enumerate().map(|(t, c)| TimedCoordinate { x: c.0, y: c.1, t }).collect(),
    }
}

fn solved(makespan: usize, schedule: Vec<AgentPath>) -> MapfSolution {
    let mut solution = MapfSolution {
        statistics: Statistics { cost: 0, makespan, highLevelExpanded: 0, lowLevelExpanded: 0 },
        schedule,
    };
    extend_stay_in_place(&mut solution);
    solution
}

fn single_agent() -> (MapfInstance, MapfSolution, Announcements) {
    let instance = MapfInstance {
        agents: vec![agent("agent0", (0, 0), (4, 4))],
        map: GridMap { dimensions: at(5, 5), obstacles: vec![at(2, 2), at(1, 3)] },
    };
    let solution = solved(
        8,
        vec![route(
            "agent0",
            &[(0, 0), (1, 0), (2, 0), (3, 0), (4, 0), (4, 1), (4, 2), (4, 3), (4, 4)],
        )],
    );
    let announcements = compute_kahead_announcements(&instance.agents, 1, 8);
    (instance, solution, announcements)
}

fn passing_defender() -> (MapfInstance, MapfSolution, Announcements) {
    // the defender waits on (3, 1): it is next to the attacker's plan at time 3 only
    let instance = MapfInstance {
        agents: vec![agent("attacker", (0, 0), (4, 0)), agent("defender", (3, 1), (3, 1))],
        map: GridMap { dimensions: at(5, 5), obstacles: vec![at(0, 2)] },
    };
    let solution = solved(
        4,
        vec![
            route("attacker", &[(0, 0), (1, 0), (2, 0), (3, 0), (4, 0)]),
            route("defender", &[(3, 1), (3, 1), (3, 1), (3, 1), (3, 1)]),
        ],
    );
    let announcements = compute_kahead_announcements(&instance.agents, 0, 4);
    (instance, solution, announcements)
}

fn flanked() -> (MapfInstance, MapfSolution, Announcements) {
    // three agents walk up side by side
    let instance = MapfInstance {
        agents: vec![
            agent("left", (1, 0), (1, 4)),
            agent("middle", (2, 0), (2, 4)),
            agent("right", (3, 0), (3, 4)),
        ],
        map: GridMap { dimensions: at(5, 5), obstacles: vec![at(4, 0), at(0, 2), at(4, 4)] },
    };
    let solution = solved(
        4,
        vec![
            route("left", &[(1, 0), (1, 1), (1, 2), (1, 3), (1, 4)]),
            route("middle", &[(2, 0), (2, 1), (2, 2), (2, 3), (2, 4)]),
            route("right", &[(3, 0), (3, 1), (3, 2), (3, 3), (3, 4)]),
        ],
    );
    let announcements = compute_kahead_announcements(&instance.agents, 1, 4);
    (instance, solution, announcements)
}

#[test]
fn a_single_agent_reaches_the_safe_cell_undetected() {
    let (instance, solution, announcements) = single_agent();
    assert!(ready(&instance, &solution, &announcements));
    for mitigation in [true, false] {
        let res = run_bold_attempt(
            &instance,
            &solution,
            &announcements,
            &"agent0".to_string(),
            &at(2, 2),
            mitigation,
        );
        assert_eq!(res.attacker_name, "agent0");
        assert_eq!(res.safe, at(2, 2));
        assert!(res.dangerous);
        assert!(!res.detected);
        assert!(res.attempted());
        assert!(res.max_deviated_dist >= 4);
        assert_eq!(res.max_inter_observation_time, 9);
        assert_eq!(res.min_inter_announcement_time, 1);
        assert_eq!(res.min_lookahead, 1);
        assert_eq!(res.avg_lookahead, Some(Fraction { numerator: 9, denominator: 9 }));
    }
}

#[test]
fn a_bold_run_starts_on_the_plan_and_walks_the_grid() {
    let (instance, solution, announcements) = single_agent();
    let plan = Scenario::new(&instance, &solution, &announcements).unwrap();
    let run = simulate(&plan, 0, at(2, 2), true);
    assert_eq!(run.ending, Ending::Completed);
    assert_eq!(run.deviation.len(), 9);
    assert_eq!(run.deviation[0], TimedCoordinate { x: 0, y: 0, t: 0 });
    for t in 0..8 {
        assert!(run.deviation[t].adj(&run.deviation[t + 1]));
        assert_eq!(run.deviation[t].t, t);
    }
    assert_eq!(run.deviation[4].coordinate(), at(2, 2));
    assert!(run.dangerous && !run.detected);
    let widest = (0..9).map(|t| run.deviation[t].coordinate().manh_dist(&plan.paths[0][t])).max();
    assert_eq!(Some(run.max_deviated_dist), widest);
}

#[test]
fn a_missed_observation_is_detected_under_mitigation_only() {
    let (instance, solution, announcements) = passing_defender();
    assert!(ready(&instance, &solution, &announcements));
    let name = "attacker".to_string();
    let mitigated = run_bold_attempt(&instance, &solution, &announcements, &name, &at(0, 2), true);
    assert!(mitigated.dangerous);
    assert!(mitigated.detected);
    let plain = run_bold_attempt(&instance, &solution, &announcements, &name, &at(0, 2), false);
    assert!(plain.dangerous);
    assert!(!plain.detected);
    assert_eq!(plain.max_inter_observation_time, 3);
    assert_eq!(plain.min_lookahead, 0);
}

#[test]
fn an_attacker_that_walks_into_a_defender_is_detected() {
    // the defender stands on the only way to the safe cell
    let instance = MapfInstance {
        agents: vec![agent("attacker", (0, 0), (0, 0)), agent("defender", (1, 0), (1, 0))],
        map: GridMap { dimensions: at(3, 1), obstacles: vec![at(2, 0)] },
    };
    let solution = solved(
        3,
        vec![
            route("attacker", &[(0, 0), (0, 0), (0, 0), (0, 0)]),
            route("defender", &[(1, 0), (1, 0), (1, 0), (1, 0)]),
        ],
    );
    let announcements = compute_kahead_announcements(&instance.agents, 0, 3);
    let plan = Scenario::new(&instance, &solution, &announcements).unwrap();
    let run = simulate(&plan, 0, at(2, 0), false);
    // the collision is detected and the attempt goes on to the makespan
    assert_eq!(run.ending, Ending::Completed);
    assert!(run.detected);
    assert!(!run.dangerous);
    assert_eq!(run.deviation.len(), 4);
    assert_eq!(run.deviation[1].coordinate(), at(1, 0));
    assert_eq!(run.deviation.last().unwrap().coordinate(), at(1, 0));
    assert_eq!(run.max_deviated_dist, 1);
}

#[test]
fn the_bold_experiment_tries_each_attacker_on_each_safe_cell() {
    let (instance, solution, announcements) = flanked();
    assert!(ready(&instance, &solution, &announcements));
    let names: Vec<String> = instance.agents.iter().map(|a| a.name.clone()).collect();
    let cells = instance.map.obstacles.clone();
    let result = run_bold_attempts(instance, solution, announcements, true);
    assert_eq!(result.attempts.len(), 9);
    for i in 0..3 {
        for j in 0..3 {
            assert_eq!(result.attempts[i * 3 + j].attacker_name, names[i]);
            assert_eq!(result.attempts[i * 3 + j].safe, cells[j]);
            assert_eq!(result.attempts[i * 3 + j].min_lookahead, 1);
        }
    }
    assert_eq!(result.dangerous_count() + result.non_dangerous_count(), 9);
}

#[test]
fn no_more_than_ten_attackers_and_ten_safe_cells_are_tried() {
    let agents: Vec<Agent> = (0..12).map(|i| agent(&format!("a{}", i), (i, 0), (i, 0))).collect();
    let schedule = (0..12).map(|i| route(&format!("a{}", i), &[(i, 0), (i, 0)])).collect();
    let obstacles: Vec<Coordinate> = (0..11).map(|i| at(i, 2)).collect();
    let instance =
        MapfInstance { agents, map: GridMap { dimensions: at(12, 3), obstacles: obstacles.clone() } };
    let solution = solved(1, schedule);
    let announcements = compute_kahead_announcements(&instance.agents, 1, 1);
    let result = run_bold_attempts(instance, solution, announcements, false);
    assert_eq!(result.attempts.len(), 100);
    assert_eq!(result.attempts[99].attacker_name, "a9");
    assert_eq!(result.attempts[99].safe, obstacles[9]);
    assert_eq!(result.attempts[10].attacker_name, "a1");
    assert_eq!(result.attempts[10].safe, obstacles[0]);
}

#[test]
fn an_attacker_between_two_defenders_is_secured() {
    let (instance, solution, announcements) = flanked();
    let cells = instance.map.obstacles.clone();
    for safe in &cells {
        let res = run_cautious_attempt(
            &instance,
            &solution,
            &announcements,
            &"middle".to_string(),
            safe,
            1000,
        )
        .unwrap();
        assert!(res.secured);
        assert_eq!(res.attacker_name, "middle");
        assert_eq!(res.safe, *safe);
        assert_eq!(res.max_inter_observation_time, 0);
        assert_eq!(res.min_inter_announcement_time, 1);
        assert_eq!(res.min_lookahead, 1);
        assert_eq!(res.avg_lookahead, Some(Fraction { numerator: 15, denominator: 15 }));
    }
    let result = run_cautious_analysis(instance, solution, announcements, 1000).unwrap();
    assert_eq!(result.attempts.len(), 9);
    assert!(result.attempts.iter().all(|attempt| attempt.secured));
    assert_eq!(result.secure_count(), 9);
    assert_eq!(result.secure_rate(), Fraction { numerator: 9, denominator: 9 });
}

#[test]
fn an_attacker_that_nobody_watches_is_not_secured() {
    let (instance, solution, announcements) = single_agent();
    let res = run_cautious_attempt(
        &instance,
        &solution,
        &announcements,
        &"agent0".to_string(),
        &at(2, 2),
        1000,
    )
    .unwrap();
    assert!(!res.secured);
    assert_eq!(res.max_inter_observation_time, 9);
}

#[test]
fn a_cautious_attempt_without_steps_is_undecided() {
    let (instance, solution, announcements) = single_agent();
    let res = run_cautious_attempt(
        &instance,
        &solution,
        &announcements,
        &"agent0".to_string(),
        &at(2, 2),
        0,
    );
    assert_eq!(res, None);
    assert_eq!(run_cautious_analysis(instance, solution, announcements, 0), None);
}

#[test]
fn inputs_that_do_not_fit_are_not_ready() {
    let (instance, solution, announcements) = flanked();
    let mut unextended = solution.clone();
    unextended.schedule[1].path.truncate(5);
    assert!(!ready(&instance, &unextended, &announcements));
    assert!(Scenario::new(&instance, &unextended, &announcements).is_none());
    let mut nameless = solution.clone();
    nameless.schedule[2].name = "stranger".to_string();
    assert!(!ready(&instance, &nameless, &announcements));
    let mut short = announcements.clone();
    short.schedule[0].horizons.pop();
    assert!(!ready(&instance, &solution, &short));
    let mut doubled = MapfInstance {
        agents: instance.agents.clone(),
        map: GridMap { dimensions: at(5, 5), obstacles: vec![at(4, 0), at(0, 2), at(4, 0)] },
    };
    assert!(!doubled.map.has_distinct_obstacles());
    assert!(!ready(&doubled, &solution, &announcements));
    doubled.map.obstacles.pop();
    assert!(doubled.map.has_distinct_obstacles());
    assert!(ready(&doubled, &solution, &announcements));
    let mut behind = announcements.clone();
    behind.schedule[0].horizons[2] = 2;
    assert!(Scenario::new(&instance, &solution, &behind).is_some());
    assert!(!ready(&instance, &solution, &behind));
    let plan = Scenario::new(&instance, &solution, &announcements).unwrap();
    assert_eq!(plan.names, vec!["left", "middle", "right"]);
    assert_eq!(plan.makespan, 4);
    assert_eq!(plan.paths[1][5], at(2, 4));
    assert_eq!(plan.horizons[2], vec![2, 3, 4, 5, 6]);
    assert!(plan.defends(0, 1) && !plan.defends(1, 1));
}

fn bold(dangerous: bool, detected: bool, max_deviated_dist: usize) -> BoldAttemptResult {
    BoldAttemptResult {
        attacker_name: "a".to_string(),
        safe: at(0, 0),
        dangerous,
        detected,
        max_deviated_dist,
        max_inter_observation_time: 0,
        min_inter_announcement_time: 1,
        min_lookahead: 1,
        avg_lookahead: None,
    }
}

#[test]
fn bold_attempts_are_counted_by_their_outcome() {
    let result = BoldExperimentResult {
        attempts: vec![
            bold(true, false, 3),
            bold(true, true, 2),
            bold(false, true, 1),
            bold(false, false, 0),
            bold(true, false, 0),
        ],
    };
    assert_eq!(result.attempted_count(), 3);
    assert_eq!(result.dangerous_count(), 3);
    assert_eq!(result.non_dangerous_count(), 2);
    assert_eq!(result.dangerous_undetected_count(), 2);
    assert_eq!(result.non_dangerous_detected_count(), 1);
    assert_eq!(result.attack_success_rate(), Fraction { numerator: 3, denominator: 5 });
    assert_eq!(result.attack_attempt_rate(), Fraction { numerator: 3, denominator: 5 });
    assert_eq!(result.miss_rate(), Some(Fraction { numerator: 2, denominator: 3 }));
    assert_eq!(result.false_alarm_rate(), Some(Fraction { numerator: 1, denominator: 2 }));
    assert_eq!(
        result.attack_success_rate().numerator + result.non_dangerous_count(),
        result.attack_success_rate().denominator
    );
}

#[test]
fn rates_without_a_denominator_are_absent() {
    let harmless = BoldExperimentResult { attempts: vec![bold(false, true, 1), bold(false, false, 0)] };
    assert_eq!(harmless.miss_rate(), None);
    assert_eq!(harmless.false_alarm_rate(), Some(Fraction { numerator: 1, denominator: 2 }));
    let lost = BoldExperimentResult { attempts: vec![bold(true, true, 1)] };
    assert_eq!(lost.false_alarm_rate(), None);
    assert_eq!(lost.miss_rate(), Some(Fraction { numerator: 0, denominator: 1 }));
    let nothing = BoldExperimentResult { attempts: Vec::new() };
    assert_eq!(nothing.attack_success_rate(), Fraction { numerator: 0, denominator: 0 });
    assert_eq!(nothing.miss_rate(), None);
    assert_eq!(nothing.false_alarm_rate(), None);
}

#[test]
fn cautious_attempts_are_counted_by_their_verdict() {
    let attempt = |secured: bool| CautiousAttemptResult {
        attacker_name: "a".to_string(),
        safe: at(0, 0),
        max_inter_observation_time: 0,
        min_inter_announcement_time: 1,
        min_lookahead: 1,
        avg_lookahead: None,
        secured,
    };
    let result =
        CautiousExperimentResult { attempts: vec![attempt(true), attempt(false), attempt(true)] };
    assert_eq!(result.secure_count(), 2);
    assert_eq!(result.secure_rate(), Fraction { numerator: 2, denominator: 3 });
}

#[test]
fn the_pairs_of_an_experiment_come_attacker_by_attacker() {
    let (instance, _, _) = flanked();
    let pairs = attempt_pairs(&instance);
    assert_eq!(pairs.len(), 9);
    assert_eq!(pairs[0], ("left".to_string(), at(4, 0)));
    assert_eq!(pairs[1], ("left".to_string(), at(0, 2)));
    assert_eq!(pairs[2], ("left".to_string(), at(4, 4)));
    assert_eq!(pairs[3], ("middle".to_string(), at(4, 0)));
    assert_eq!(pairs[8], ("right".to_string(), at(4, 4)));
    let nobody = MapfInstance {
        agents: Vec::new(),
        map: GridMap { dimensions: at(5, 5), obstacles: vec![at(1, 1)] },
    };
    assert!(attempt_pairs(&nobody).is_empty());
}

#[test]
fn an_attacker_that_knows_a_deviation_at_the_start_does_not_move() {
    let instance = MapfInstance {
        agents: vec![agent("a0", (1, 2), (1, 2))],
        map: GridMap { dimensions: at(5, 5), obstacles: vec![at(2, 2)] },
    };
    let solution = MapfSolution {
        statistics: Statistics { cost: 0, makespan: 4, highLevelExpanded: 0, lowLevelExpanded: 0 },
        schedule: vec![route("a0", &[(1, 2), (1, 2), (1, 2), (1, 2), (1, 2), (1, 2)])],
    };
    let announcements = compute_kahead_announcements(&instance.agents, 3, 4);
    assert_eq!(announcements.schedule[0].horizons, vec![4, 5, 6, 7, 8]);
    assert!(ready(&instance, &solution, &announcements));
    let res =
        run_bold_attempt(&instance, &solution, &announcements, &"a0".to_string(), &at(2, 2), true);
    assert!(res.dangerous);
    assert!(!res.detected);
    assert_eq!(res.max_deviated_dist, 0);
    assert!(!res.attempted());
    let plan = Scenario::new(&instance, &solution, &announcements).unwrap();
    let run = simulate(&plan, 0, at(2, 2), true);
    assert_eq!(run.ending, Ending::KnownDeviation);
    assert_eq!(run.deviation, vec![TimedCoordinate { x: 1, y: 2, t: 0 }]);
}

#[test]
fn floods_move_on_a_schedule_of_one_step() {
    // with a makespan below 2 every passable cell still has its moves
    let instance = MapfInstance {
        agents: vec![agent("a0", (0, 0), (0, 0))],
        map: GridMap { dimensions: at(3, 1), obstacles: vec![at(2, 0)] },
    };
    let solution = solved(1, vec![route("a0", &[(0, 0), (0, 0)])]);
    let announcements = compute_kahead_announcements(&instance.agents, 0, 1);
    let plan = Scenario::new(&instance, &solution, &announcements).unwrap();
    // the attacker's flood grows to the whole corridor and comes to rest
    assert_eq!(announcenet::cautious::cautious_verdict(&plan, 0, &at(2, 0), 2), None);
    assert_eq!(announcenet::cautious::cautious_verdict(&plan, 0, &at(2, 0), 3), Some(false));
}
