//! The experiments: one attempt for each pair of an attacker and a safe
//! cell, and what the attempts of an experiment add up to.

use crate::bold::{simulate, BoldRun};
use crate::cautious::{built_edges, cautious_verdict, sweeping};
use crate::inputs::{
    agent_names, first_named, has_name, index_of, lemma_first_named, Announcements, Coordinate,
    Fraction, MapfInstance, MapfSolution, TimedCoordinate,
};
use crate::plan::{consistent, measurable, Scenario};
use vstd::prelude::*;

verus! {

/// What one bold attempt came to, with the metrics of its inputs.
#[derive(Debug, PartialEq)]
pub struct BoldAttemptResult {
    pub attacker_name: String,
    pub safe: Coordinate,
    /// The attacker reached the safe cell, or knew a way to reach it and be
    /// back in time.
    pub dangerous: bool,
    /// The deviation was detected.
    pub detected: bool,
    /// The greatest distance between the attacker and its plan.
    pub max_deviated_dist: usize,
    pub max_inter_observation_time: usize,
    pub min_inter_announcement_time: usize,
    pub min_lookahead: usize,
    pub avg_lookahead: Option<Fraction>,
}

impl BoldAttemptResult {
    /// The attacker left its plan.
    pub fn attempted(&self) -> (b: bool)
        ensures
            b == (self.max_deviated_dist > 0),
    {
        self.max_deviated_dist > 0
    }
}

#[derive(Debug, PartialEq)]
pub struct BoldExperimentResult {
    pub attempts: Vec<BoldAttemptResult>,
}

/// The attempts that a count of bold attempts takes in.
#[derive(Debug, Eq, Copy, Clone, PartialEq, Structural)]
pub enum Outcome {
    /// The attacker left its plan.
    Attempted,
    Dangerous,
    NonDangerous,
    DangerousUndetected,
    NonDangerousDetected,
}

impl Outcome {
    /// The attempt is one of those that the count takes in.
    pub open spec fn holds(self, res: BoldAttemptResult) -> bool {
        match self {
            Outcome::Attempted => res.max_deviated_dist > 0,
            Outcome::Dangerous => res.dangerous,
            Outcome::NonDangerous => !res.dangerous,
            Outcome::DangerousUndetected => res.dangerous && !res.detected,
            Outcome::NonDangerousDetected => !res.dangerous && res.detected,
        }
    }

    /// Whether the attempt is one of those that the count takes in.
    pub fn of(self, res: &BoldAttemptResult) -> (b: bool)
        ensures
            b == self.holds(*res),
    {
        match self {
            Outcome::Attempted => res.attempted(),
            Outcome::Dangerous => res.dangerous,
            Outcome::NonDangerous => !res.dangerous,
            Outcome::DangerousUndetected => res.dangerous && !res.detected,
            Outcome::NonDangerousDetected => !res.dangerous && res.detected,
        }
    }
}

/// The number of the attempts of the given outcome.
pub open spec fn tally(attempts: Seq<BoldAttemptResult>, outcome: Outcome) -> nat
    decreases attempts.len(),
{
    if attempts.len() == 0 {
        0
    } else {
        tally(attempts.drop_last(), outcome) + if outcome.holds(attempts.last()) {
            1nat
        } else {
            0nat
        }
    }
}

/// Every attempt is dangerous or not: the two counts add up to the number of
/// attempts.
pub proof fn lemma_tally_split(attempts: Seq<BoldAttemptResult>)
    ensures
        tally(attempts, Outcome::Dangerous) + tally(attempts, Outcome::NonDangerous) == attempts.len(),
    decreases attempts.len(),
{
    if attempts.len() > 0 {
        lemma_tally_split(attempts.drop_last());
    }
}

impl BoldExperimentResult {
    /// The number of the attempts of the given outcome.
    pub fn count(&self, outcome: Outcome) -> (n: usize)
        ensures
            n == tally(self.attempts@, outcome),
            n <= self.attempts.len(),
    {
        let mut n: usize = 0;
        let mut i: usize = 0;
        while i < self.attempts.len()
            invariant
                i <= self.attempts.len(),
                n <= i,
                n == tally(self.attempts@.take(i as int), outcome),
            decreases self.attempts.len() - i,
        {
            assert(self.attempts@.take(i + 1).drop_last() =~= self.attempts@.take(i as int));
            if outcome.of(&self.attempts[i]) {
                n += 1;
            }
            i += 1;
        }
        assert(self.attempts@.take(i as int) =~= self.attempts@);
        n
    }

    pub fn attempted_count(&self) -> (n: usize)
        ensures
            n == tally(self.attempts@, Outcome::Attempted),
    {
        self.count(Outcome::Attempted)
    }

    pub fn dangerous_count(&self) -> (n: usize)
        ensures
            n == tally(self.attempts@, Outcome::Dangerous),
    {
        self.count(Outcome::Dangerous)
    }

    pub fn non_dangerous_count(&self) -> (n: usize)
        ensures
            n == tally(self.attempts@, Outcome::NonDangerous),
    {
        proof {
            lemma_tally_split(self.attempts@);
        }
        self.attempts.len() - self.dangerous_count()
    }

    pub fn dangerous_undetected_count(&self) -> (n: usize)
        ensures
            n == tally(self.attempts@, Outcome::DangerousUndetected),
    {
        self.count(Outcome::DangerousUndetected)
    }

    pub fn non_dangerous_detected_count(&self) -> (n: usize)
        ensures
            n == tally(self.attempts@, Outcome::NonDangerousDetected),
    {
        self.count(Outcome::NonDangerousDetected)
    }

    /// The share of the attempts that are dangerous.
    pub fn attack_success_rate(&self) -> (rate: Fraction)
        ensures
            rate.numerator == tally(self.attempts@, Outcome::Dangerous),
            rate.denominator == self.attempts.len(),
    {
        Fraction { numerator: self.dangerous_count(), denominator: self.attempts.len() }
    }

    /// The share of the attempts in which the attacker left its plan.
    pub fn attack_attempt_rate(&self) -> (rate: Fraction)
        ensures
            rate.numerator == tally(self.attempts@, Outcome::Attempted),
            rate.denominator == self.attempts.len(),
    {
        Fraction { numerator: self.attempted_count(), denominator: self.attempts.len() }
    }

    /// The share of the dangerous attempts that went undetected; none where
    /// no attempt is dangerous.
    pub fn miss_rate(&self) -> (rate: Option<Fraction>)
        ensures
            rate is Some <==> tally(self.attempts@, Outcome::Dangerous) > 0,
            rate matches Some(f) ==> f.numerator == tally(
                self.attempts@,
                Outcome::DangerousUndetected,
            ) && f.denominator == tally(self.attempts@, Outcome::Dangerous),
    {
        let dangerous = self.dangerous_count();
        if dangerous > 0 {
            Some(Fraction { numerator: self.dangerous_undetected_count(), denominator: dangerous })
        } else {
            None
        }
    }

    /// The share of the attempts that are not dangerous and were detected all
    /// the same; none where every attempt is dangerous.
    pub fn false_alarm_rate(&self) -> (rate: Option<Fraction>)
        ensures
            rate is Some <==> tally(self.attempts@, Outcome::NonDangerous) > 0,
            rate matches Some(f) ==> f.numerator == tally(
                self.attempts@,
                Outcome::NonDangerousDetected,
            ) && f.denominator == tally(self.attempts@, Outcome::NonDangerous),
    {
        let harmless = self.non_dangerous_count();
        if harmless > 0 {
            Some(Fraction { numerator: self.non_dangerous_detected_count(), denominator: harmless })
        } else {
            None
        }
    }
}

/// The attack success rate and the share of the attempts that are not
/// dangerous add up to one: over the number of attempts, the two numerators
/// add up to the denominator.
pub proof fn law_success_and_failure(result: BoldExperimentResult, rate: Fraction, harmless: int)
    requires
        rate.numerator == tally(result.attempts@, Outcome::Dangerous),
        rate.denominator == result.attempts.len(),
        harmless == tally(result.attempts@, Outcome::NonDangerous),
    ensures
        rate.numerator + harmless == rate.denominator,
{
    lemma_tally_split(result.attempts@);
}

/// The metrics that a result carries are those of the inputs.
pub open spec fn measured(
    solution: MapfSolution,
    announcements: Announcements,
    name: Seq<char>,
    max_inter_observation_time: int,
    min_inter_announcement_time: int,
    min_lookahead: int,
    avg_lookahead: Option<Fraction>,
) -> bool {
    let agents = announcements.schedule.len() as int;
    &&& solution.longest_unobserved(name, max_inter_observation_time)
    &&& announcements.least_gap(min_inter_announcement_time)
    &&& announcements.least_lookahead(min_lookahead)
    &&& avg_lookahead is Some <==> 0 < announcements.entries(agents) <= usize::MAX
        && announcements.lookahead_sum(agents) <= usize::MAX
    &&& avg_lookahead matches Some(f) ==> f.numerator == announcements.lookahead_sum(agents)
        && f.denominator == announcements.entries(agents)
}

/// `res` is what a bold attempt of the named attacker on the safe cell can
/// come to: it names the two, carries the metrics of the inputs, and gives
/// the verdict of a run that the attacker can make.
pub open spec fn bold_attempt(
    instance: MapfInstance,
    solution: MapfSolution,
    announcements: Announcements,
    name: Seq<char>,
    safe: Coordinate,
    mitigation: bool,
    res: BoldAttemptResult,
) -> bool {
    &&& res.attacker_name@ == name
    &&& res.safe == safe
    &&& measured(
        solution,
        announcements,
        name,
        res.max_inter_observation_time as int,
        res.min_inter_announcement_time as int,
        res.min_lookahead as int,
        res.avg_lookahead,
    )
    &&& exists|plan: Scenario, run: BoldRun|
        {
            &&& plan.reflects(instance, solution, announcements)
            &&& #[trigger] run.describes(
                plan,
                index_of(agent_names(instance.agents@), name),
                safe,
                mitigation,
            )
            &&& res.dangerous == run.dangerous
            &&& res.detected == run.detected
            &&& res.max_deviated_dist == run.max_deviated_dist
        }
}

/// The position of the first agent under the given name.
pub fn find_agent(instance: &MapfInstance, name: &String) -> (found: Option<usize>)
    ensures
        match found {
            Some(i) => first_named(agent_names(instance.agents@), name@, i as int),
            None => !has_name(agent_names(instance.agents@), name@),
        },
{
    let mut i: usize = 0;
    while i < instance.agents.len()
        invariant
            i <= instance.agents.len(),
            forall|j: int| 0 <= j < i ==> agent_names(instance.agents@)[j] != name@,
        decreases instance.agents.len() - i,
    {
        if instance.agents[i].name == *name {
            assert(agent_names(instance.agents@)[i as int] == name@);
            return Some(i);
        }
        assert(agent_names(instance.agents@)[i as int] != name@);
        i += 1;
    }
    None
}

/// One bold attempt: the named agent, as the attacker, heads for the safe
/// cell while the other agents keep to their plans.
pub fn run_bold_attempt(
    instance: &MapfInstance,
    solution: &MapfSolution,
    announcements: &Announcements,
    attacker_name: &String,
    safe: &Coordinate,
    mitigation: bool,
) -> (res: BoldAttemptResult)
    requires
        consistent(*instance, *solution, *announcements),
        measurable(*solution, *announcements),
        has_name(agent_names(instance.agents@), attacker_name@),
    ensures
        bold_attempt(*instance, *solution, *announcements, attacker_name@, *safe, mitigation, res),
{
    let max_inter_observation_time = solution.max_inter_observation_time(attacker_name);
    let min_inter_announcement_time = announcements.min_inter_announcement_time();
    let min_lookahead = announcements.min_lookahead();
    let avg_lookahead = announcements.avg_lookahead();
    let blank = BoldAttemptResult {
        attacker_name: attacker_name.clone(),
        safe: *safe,
        dangerous: false,
        detected: false,
        max_deviated_dist: 0,
        max_inter_observation_time,
        min_inter_announcement_time,
        min_lookahead,
        avg_lookahead,
    };
    let plan = match Scenario::new(instance, solution, announcements) {
        Some(plan) => plan,
        None => {
            return blank;
        },
    };
    let attacker = match find_agent(instance, attacker_name) {
        Some(attacker) => attacker,
        None => {
            return blank;
        },
    };
    proof {
        lemma_first_named(agent_names(instance.agents@), attacker_name@, attacker as int);
        assert(plan.agents().len() == plan.names.len());
    }
    let run = simulate(&plan, attacker, *safe, mitigation);
    let res = BoldAttemptResult {
        attacker_name: blank.attacker_name,
        safe: *safe,
        dangerous: run.dangerous,
        detected: run.detected,
        max_deviated_dist: run.max_deviated_dist,
        max_inter_observation_time,
        min_inter_announcement_time,
        min_lookahead,
        avg_lookahead,
    };
    assert(run.describes(
        plan,
        index_of(agent_names(instance.agents@), attacker_name@),
        *safe,
        mitigation,
    ));
    res
}

/// The position of the attempt of attacker `i` on safe cell `j`, with `m`
/// safe cells for each attacker.
pub open spec fn slot(m: int, i: int, j: int) -> int {
    i * m + j
}

/// The lesser of a number and ten.
pub open spec fn capped(k: int) -> int {
    if k < 10 {
        k
    } else {
        10
    }
}

/// The lesser of a number and ten.
pub fn up_to_ten(n: usize) -> (m: usize)
    ensures
        m == capped(n as int),
{
    if n < 10 {
        n
    } else {
        10
    }
}

/// `pairs` holds the pairs of an experiment: each of the first ten agents,
/// by its name, with each of the first ten obstacles; attacker by attacker,
/// and for each of them safe cell by safe cell.
pub open spec fn pairs_of(instance: MapfInstance, pairs: Seq<(String, Coordinate)>) -> bool {
    let n = capped(instance.agents.len() as int);
    let m = capped(instance.map.obstacles.len() as int);
    &&& pairs.len() == n * m
    &&& forall|i: int, j: int|
        0 <= i < n && 0 <= j < m ==> (#[trigger] pairs[slot(m, i, j)]).0@ == instance.agents[i].name@
            && pairs[slot(m, i, j)].1 == instance.map.obstacles[j]
    &&& forall|k: int|
        0 <= k < pairs.len() ==> has_name(agent_names(instance.agents@), (#[trigger] pairs[k]).0@)
}

/// The position of a pair lies within the pairs.
pub proof fn lemma_slot(n: int, m: int, i: int, j: int)
    requires
        0 <= i < n,
        0 <= j < m,
    ensures
        0 <= slot(m, i, j) < n * m,
        slot(m, i, m) == slot(m, i + 1, 0),
{
    assert(0 <= i * m + j < n * m) by (nonlinear_arith)
        requires
            0 <= i < n,
            0 <= j < m,
    ;
    assert(i * m + m == (i + 1) * m) by (nonlinear_arith);
}

/// Every position within the pairs is that of an attacker and a safe cell.
pub proof fn lemma_pair_at(n: int, m: int, k: int) -> (at: (int, int))
    requires
        0 <= n,
        0 <= m,
        0 <= k < n * m,
    ensures
        0 <= at.0 < n,
        0 <= at.1 < m,
        slot(m, at.0, at.1) == k,
{
    assert(m > 0) by (nonlinear_arith)
        requires
            0 <= n,
            0 <= m,
            0 <= k < n * m,
    ;
    vstd::arithmetic::div_mod::lemma_fundamental_div_mod(k, m);
    let i = k / m;
    let j = k % m;
    assert(0 <= j < m && 0 <= i && i * m + j == k) by (nonlinear_arith)
        requires
            m > 0,
            k >= 0,
            i == k / m,
            j == k % m,
            k == m * (k / m) + k % m,
    ;
    assert(i < n) by (nonlinear_arith)
        requires
            i * m + j == k,
            0 <= j,
            k < n * m,
            m > 0,
    ;
    (i, j)
}

/// The pairs of an experiment: each of the first ten agents, by its name,
/// with each of the first ten obstacles.
pub fn attempt_pairs(instance: &MapfInstance) -> (pairs: Vec<(String, Coordinate)>)
    ensures
        pairs_of(*instance, pairs@),
{
    let n = up_to_ten(instance.agents.len());
    let m = up_to_ten(instance.map.obstacles.len());
    let ghost names = agent_names(instance.agents@);
    let mut pairs: Vec<(String, Coordinate)> = Vec::new();
    let mut i: usize = 0;
    while i < n
        invariant
            n == capped(instance.agents.len() as int),
            m == capped(instance.map.obstacles.len() as int),
            names == agent_names(instance.agents@),
            i <= n,
            pairs.len() == slot(m as int, i as int, 0),
            forall|k: int, j: int|
                0 <= k < i && 0 <= j < m ==> (#[trigger] pairs[slot(m as int, k, j)]).0@
                    == instance.agents[k].name@ && pairs[slot(m as int, k, j)].1
                    == instance.map.obstacles[j],
            forall|k: int| 0 <= k < pairs.len() ==> has_name(names, (#[trigger] pairs[k]).0@),
        decreases n - i,
    {
        let mut j: usize = 0;
        while j < m
            invariant
                n == capped(instance.agents.len() as int),
                m == capped(instance.map.obstacles.len() as int),
                names == agent_names(instance.agents@),
                i < n,
                j <= m,
                pairs.len() == slot(m as int, i as int, j as int),
                forall|k: int, l: int|
                    0 <= k < i && 0 <= l < m ==> (#[trigger] pairs[slot(m as int, k, l)]).0@
                        == instance.agents[k].name@ && pairs[slot(m as int, k, l)].1
                        == instance.map.obstacles[l],
                forall|l: int|
                    0 <= l < j ==> (#[trigger] pairs[slot(m as int, i as int, l)]).0@
                        == instance.agents[i as int].name@ && pairs[slot(m as int, i as int, l)].1
                        == instance.map.obstacles[l],
                forall|k: int| 0 <= k < pairs.len() ==> has_name(names, (#[trigger] pairs[k]).0@),
            decreases m - j,
        {
            proof {
                assert(names[i as int] == instance.agents[i as int].name@);
                assert forall|k: int, l: int| 0 <= k < i && 0 <= l < m implies 0 <= #[trigger] slot(
                    m as int,
                    k,
                    l,
                ) < pairs.len() by {
                    lemma_slot(i as int, m as int, k, l);
                }
            }
            pairs.push((instance.agents[i].name.clone(), instance.map.obstacles[j]));
            j += 1;
        }
        proof {
            if m > 0 {
                lemma_slot(n as int, m as int, i as int, 0);
            }
            assert(slot(m as int, i as int, m as int) == slot(m as int, i + 1, 0)) by (nonlinear_arith);
        }
        i += 1;
    }
    pairs
}

/// The bold experiment: one attempt for each of the first ten agents, as the
/// attacker, on each of the first ten obstacles, as the safe cell; attacker
/// by attacker, and for each of them safe cell by safe cell.
pub fn run_bold_attempts(
    instance: MapfInstance,
    solution: MapfSolution,
    announcements: Announcements,
    mitigation: bool,
) -> (result: BoldExperimentResult)
    requires
        consistent(instance, solution, announcements),
        measurable(solution, announcements),
    ensures
        ({
            let n = capped(instance.agents.len() as int);
            let m = capped(instance.map.obstacles.len() as int);
            &&& result.attempts.len() == n * m
            &&& forall|i: int, j: int|
                0 <= i < n && 0 <= j < m ==> bold_attempt(
                    instance,
                    solution,
                    announcements,
                    instance.agents[i].name@,
                    instance.map.obstacles[j],
                    mitigation,
                    #[trigger] result.attempts[slot(m, i, j)],
                )
        }),
{
    let pairs = attempt_pairs(&instance);
    let mut attempts: Vec<BoldAttemptResult> = Vec::new();
    let mut k: usize = 0;
    while k < pairs.len()
        invariant
            consistent(instance, solution, announcements),
            measurable(solution, announcements),
            pairs_of(instance, pairs@),
            k <= pairs.len(),
            attempts.len() == k,
            forall|l: int|
                0 <= l < k ==> bold_attempt(
                    instance,
                    solution,
                    announcements,
                    pairs[l].0@,
                    pairs[l].1,
                    mitigation,
                    #[trigger] attempts[l],
                ),
        decreases pairs.len() - k,
    {
        let res = run_bold_attempt(
            &instance,
            &solution,
            &announcements,
            &pairs[k].0,
            &pairs[k].1,
            mitigation,
        );
        attempts.push(res);
        k += 1;
    }
    proof {
        let n = capped(instance.agents.len() as int);
        let m = capped(instance.map.obstacles.len() as int);
        assert forall|i: int, j: int| 0 <= i < n && 0 <= j < m implies bold_attempt(
            instance,
            solution,
            announcements,
            instance.agents[i].name@,
            instance.map.obstacles[j],
            mitigation,
            #[trigger] attempts[slot(m, i, j)],
        ) by {
            lemma_slot(n, m, i, j);
            let l = slot(m, i, j);
            assert(pairs[l].0@ == instance.agents[i].name@ && pairs[l].1 == instance.map.obstacles[j]);
        }
    }
    BoldExperimentResult { attempts }
}

/// What one cautious attempt came to, with the metrics of its inputs.
#[derive(Debug, PartialEq)]
pub struct CautiousAttemptResult {
    pub attacker_name: String,
    pub safe: Coordinate,
    pub max_inter_observation_time: usize,
    pub min_inter_announcement_time: usize,
    pub min_lookahead: usize,
    pub avg_lookahead: Option<Fraction>,
    /// No deviation of the attacker can reach the safe cell before a
    /// defender can observe it.
    pub secured: bool,
}

#[derive(Debug, PartialEq)]
pub struct CautiousExperimentResult {
    pub attempts: Vec<CautiousAttemptResult>,
}

/// The number of the attempts that are secured.
pub open spec fn secured_tally(attempts: Seq<CautiousAttemptResult>) -> nat
    decreases attempts.len(),
{
    if attempts.len() == 0 {
        0
    } else {
        secured_tally(attempts.drop_last()) + if attempts.last().secured {
            1nat
        } else {
            0nat
        }
    }
}

impl CautiousExperimentResult {
    pub fn secure_count(&self) -> (n: usize)
        ensures
            n == secured_tally(self.attempts@),
            n <= self.attempts.len(),
    {
        let mut n: usize = 0;
        let mut i: usize = 0;
        while i < self.attempts.len()
            invariant
                i <= self.attempts.len(),
                n <= i,
                n == secured_tally(self.attempts@.take(i as int)),
            decreases self.attempts.len() - i,
        {
            assert(self.attempts@.take(i + 1).drop_last() =~= self.attempts@.take(i as int));
            if self.attempts[i].secured {
                n += 1;
            }
            i += 1;
        }
        assert(self.attempts@.take(i as int) =~= self.attempts@);
        n
    }

    /// The share of the attempts that are secured.
    pub fn secure_rate(&self) -> (rate: Fraction)
        ensures
            rate.numerator == secured_tally(self.attempts@),
            rate.denominator == self.attempts.len(),
    {
        Fraction { numerator: self.secure_count(), denominator: self.attempts.len() }
    }
}

/// `res` is what a cautious attempt of the named attacker on the safe cell
/// comes to within `budget` steps: nothing where the steps do not suffice;
/// else a result that names the two, carries the metrics of the inputs, and
/// says whether the pair is secure.
pub open spec fn cautious_attempt(
    instance: MapfInstance,
    solution: MapfSolution,
    announcements: Announcements,
    name: Seq<char>,
    safe: Coordinate,
    budget: nat,
    res: Option<CautiousAttemptResult>,
) -> bool {
    exists|plan: Scenario|
        {
            let verdict = sweeping(
                plan,
                built_edges(plan, safe),
                index_of(agent_names(instance.agents@), name),
                safe,
                Set::<TimedCoordinate>::empty(),
                0,
                budget,
            );
            &&& #[trigger] plan.reflects(instance, solution, announcements)
            &&& res is Some <==> verdict is Some
            &&& res matches Some(r) ==> {
                &&& verdict == Some(r.secured)
                &&& r.attacker_name@ == name
                &&& r.safe == safe
                &&& measured(
                    solution,
                    announcements,
                    name,
                    r.max_inter_observation_time as int,
                    r.min_inter_announcement_time as int,
                    r.min_lookahead as int,
                    r.avg_lookahead,
                )
            }
        }
}

/// One cautious attempt: whether the named agent, as the attacker, can reach
/// the safe cell before a defender can observe it. The analysis takes no
/// more than `budget` steps of the floods, and gives nothing where they do
/// not suffice.
pub fn run_cautious_attempt(
    instance: &MapfInstance,
    solution: &MapfSolution,
    announcements: &Announcements,
    attacker_name: &String,
    safe: &Coordinate,
    budget: usize,
) -> (res: Option<CautiousAttemptResult>)
    requires
        consistent(*instance, *solution, *announcements),
        measurable(*solution, *announcements),
        has_name(agent_names(instance.agents@), attacker_name@),
    ensures
        cautious_attempt(
            *instance,
            *solution,
            *announcements,
            attacker_name@,
            *safe,
            budget as nat,
            res,
        ),
{
    let plan = match Scenario::new(instance, solution, announcements) {
        Some(plan) => plan,
        None => {
            return None;
        },
    };
    let attacker = match find_agent(instance, attacker_name) {
        Some(attacker) => attacker,
        None => {
            return None;
        },
    };
    proof {
        lemma_first_named(agent_names(instance.agents@), attacker_name@, attacker as int);
        assert(plan.agents().len() == plan.names.len());
    }
    let secured = match cautious_verdict(&plan, attacker, safe, budget) {
        Some(secured) => secured,
        None => {
            assert(plan.reflects(*instance, *solution, *announcements));
            return None;
        },
    };
    let res = CautiousAttemptResult {
        attacker_name: attacker_name.clone(),
        safe: *safe,
        max_inter_observation_time: solution.max_inter_observation_time(attacker_name),
        min_inter_announcement_time: announcements.min_inter_announcement_time(),
        min_lookahead: announcements.min_lookahead(),
        avg_lookahead: announcements.avg_lookahead(),
        secured,
    };
    assert(plan.reflects(*instance, *solution, *announcements));
    Some(res)
}

/// The cautious experiment: one attempt for each of the first ten agents, as
/// the attacker, on each of the first ten obstacles, as the safe cell;
/// attacker by attacker, and for each of them safe cell by safe cell. Each
/// attempt takes no more than `budget` steps; where they do not suffice for
/// one of the attempts, the experiment gives nothing.
pub fn run_cautious_analysis(
    instance: MapfInstance,
    solution: MapfSolution,
    announcements: Announcements,
    budget: usize,
) -> (result: Option<CautiousExperimentResult>)
    requires
        consistent(instance, solution, announcements),
        measurable(solution, announcements),
    ensures
        ({
            let n = capped(instance.agents.len() as int);
            let m = capped(instance.map.obstacles.len() as int);
            match result {
                Some(r) => {
                    &&& r.attempts.len() == n * m
                    &&& forall|i: int, j: int|
                        0 <= i < n && 0 <= j < m ==> cautious_attempt(
                            instance,
                            solution,
                            announcements,
                            instance.agents[i].name@,
                            instance.map.obstacles[j],
                            budget as nat,
                            Some(#[trigger] r.attempts[slot(m, i, j)]),
                        )
                },
                None => exists|i: int, j: int|
                    0 <= i < n && 0 <= j < m && #[trigger] cautious_attempt(
                        instance,
                        solution,
                        announcements,
                        instance.agents[i].name@,
                        instance.map.obstacles[j],
                        budget as nat,
                        None,
                    ),
            }
        }),
{
    let pairs = attempt_pairs(&instance);
    let mut attempts: Vec<CautiousAttemptResult> = Vec::new();
    let mut k: usize = 0;
    while k < pairs.len()
        invariant
            consistent(instance, solution, announcements),
            measurable(solution, announcements),
            pairs_of(instance, pairs@),
            k <= pairs.len(),
            attempts.len() == k,
            forall|l: int|
                0 <= l < k ==> cautious_attempt(
                    instance,
                    solution,
                    announcements,
                    pairs[l].0@,
                    pairs[l].1,
                    budget as nat,
                    Some(#[trigger] attempts[l]),
                ),
        decreases pairs.len() - k,
    {
        match run_cautious_attempt(
            &instance,
            &solution,
            &announcements,
            &pairs[k].0,
            &pairs[k].1,
            budget,
        ) {
            Some(res) => {
                attempts.push(res);
            },
            None => {
                proof {
                    let n = capped(instance.agents.len() as int);
                    let m = capped(instance.map.obstacles.len() as int);
                    let (i, j) = lemma_pair_at(n, m, k as int);
                    assert(pairs[slot(m, i, j)].0@ == instance.agents[i].name@ && pairs[slot(
                        m,
                        i,
                        j,
                    )].1 == instance.map.obstacles[j]);
                    assert(cautious_attempt(
                        instance,
                        solution,
                        announcements,
                        instance.agents[i].name@,
                        instance.map.obstacles[j],
                        budget as nat,
                        None,
                    ));
                }
                return None;
            },
        }
        k += 1;
    }
    proof {
        let n = capped(instance.agents.len() as int);
        let m = capped(instance.map.obstacles.len() as int);
        assert forall|i: int, j: int| 0 <= i < n && 0 <= j < m implies cautious_attempt(
            instance,
            solution,
            announcements,
            instance.agents[i].name@,
            instance.map.obstacles[j],
            budget as nat,
            Some(#[trigger] attempts[slot(m, i, j)]),
        ) by {
            lemma_slot(n, m, i, j);
            let l = slot(m, i, j);
            assert(pairs[l].0@ == instance.agents[i].name@ && pairs[l].1 == instance.map.obstacles[j]);
        }
    }
    Some(CautiousExperimentResult { attempts })
}

} // verus!
