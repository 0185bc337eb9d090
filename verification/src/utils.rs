//! Padding of schedules to the makespan, and the three announcement
//! strategies: a rolling window, grouped windows, and the robust strategy
//! that withholds a position while another agent still has to cross it.

use crate::inputs::{
    agent_names, Agent, AgentHorizons, AgentPath, Announcements, Coordinate, MapfInstance,
    MapfSolution, TimedCoordinate,
};
use crate::table::{covers, rows, Table};
use vstd::arithmetic::div_mod::{lemma_fundamental_div_mod, lemma_fundamental_div_mod_converse};
use vstd::prelude::*;

verus! {

/// `after` is `before`, lengthened to `makespan + 2` positions by staying on
/// the last cell while the timestep counts on.
pub open spec fn padded(
    before: Seq<TimedCoordinate>,
    after: Seq<TimedCoordinate>,
    makespan: int,
) -> bool {
    &&& after.len() == if before.len() >= makespan + 2 {
        before.len() as int
    } else {
        makespan + 2
    }
    &&& forall|t: int| 0 <= t < before.len() ==> after[t] == before[t]
    &&& forall|t: int|
        before.len() <= t < after.len() ==> #[trigger] after[t] == (TimedCoordinate {
            x: before.last().x,
            y: before.last().y,
            t: (before.last().t + (t - before.len() + 1)) as usize,
        })
}

/// A path can be padded: it has a last position, and the timesteps that
/// padding adds fit the machine's integers.
pub open spec fn paddable(path: Seq<TimedCoordinate>, makespan: int) -> bool {
    path.len() < makespan + 2 ==> path.len() > 0 && path.last().t + (makespan + 2 - path.len())
        <= usize::MAX
}

/// One path, padded to `makespan + 2` positions.
fn pad_path(path: &Vec<TimedCoordinate>, makespan: usize) -> (longer: Vec<TimedCoordinate>)
    requires
        makespan + 2 <= usize::MAX,
        paddable(path@, makespan as int),
    ensures
        padded(path@, longer@, makespan as int),
{
    let mut longer: Vec<TimedCoordinate> = Vec::new();
    let mut t: usize = 0;
    while t < path.len()
        invariant
            t <= path.len(),
            longer.len() == t,
            forall|u: int| 0 <= u < t ==> longer[u] == path[u],
        decreases path.len() - t,
    {
        longer.push(path[t]);
        t += 1;
    }
    while longer.len() <= makespan + 1
        invariant
            makespan + 2 <= usize::MAX,
            paddable(path@, makespan as int),
            path.len() <= longer.len(),
            longer.len() <= makespan + 2 || longer.len() == path.len(),
            forall|u: int| 0 <= u < path.len() ==> longer[u] == path[u],
            forall|u: int|
                path.len() <= u < longer.len() ==> #[trigger] longer[u] == (TimedCoordinate {
                    x: path@.last().x,
                    y: path@.last().y,
                    t: (path@.last().t + (u - path.len() + 1)) as usize,
                }),
        decreases makespan + 2 - longer.len(),
    {
        let last = longer[longer.len() - 1];
        longer.push(last.as_time(last.t + 1));
    }
    longer
}

/// Lengthens every path to `makespan + 2` positions by staying in place.
pub fn extend_stay_in_place(solution: &mut MapfSolution)
    requires
        old(solution).statistics.makespan + 2 <= usize::MAX,
        forall|i: int|
            0 <= i < old(solution).schedule.len() ==> paddable(
                (#[trigger] old(solution).schedule[i]).path@,
                old(solution).statistics.makespan as int,
            ),
    ensures
        final(solution).statistics == old(solution).statistics,
        final(solution).names() == old(solution).names(),
        final(solution).schedule.len() == old(solution).schedule.len(),
        forall|i: int|
            0 <= i < old(solution).schedule.len() ==> padded(
                old(solution).schedule[i].path@,
                (#[trigger] final(solution).schedule[i]).path@,
                old(solution).statistics.makespan as int,
            ),
        forall|i: int|
            0 <= i < final(solution).schedule.len() ==> (#[trigger] final(solution).schedule[i]).path.len()
                >= final(solution).statistics.makespan + 2,
{
    let makespan = solution.statistics.makespan;
    let mut fresh: Vec<AgentPath> = Vec::new();
    let mut i: usize = 0;
    while i < solution.schedule.len()
        invariant
            *solution == *old(solution),
            makespan == solution.statistics.makespan,
            makespan + 2 <= usize::MAX,
            forall|k: int|
                0 <= k < solution.schedule.len() ==> paddable(
                    (#[trigger] solution.schedule[k]).path@,
                    makespan as int,
                ),
            i <= solution.schedule.len(),
            fresh.len() == i,
            forall|k: int|
                0 <= k < i ==> (#[trigger] fresh[k]).name@ == solution.schedule[k].name@ && padded(
                    solution.schedule[k].path@,
                    fresh[k].path@,
                    makespan as int,
                ),
        decreases solution.schedule.len() - i,
    {
        let entry = &solution.schedule[i];
        let path = pad_path(&entry.path, makespan);
        fresh.push(AgentPath { name: entry.name.clone(), path });
        i += 1;
    }
    solution.schedule = fresh;
    assert(solution.names() =~= old(solution).names());
}

/// The announcements give the agents, in their order, the same horizons:
/// `row(t)` at each timestep `t` up to the makespan.
pub open spec fn announces(
    a: Announcements,
    agents: Seq<Agent>,
    makespan: int,
    row: spec_fn(int) -> int,
) -> bool {
    &&& a.names() == agent_names(agents)
    &&& a.schedule.len() == agents.len()
    &&& forall|i: int|
        0 <= i < agents.len() ==> (#[trigger] a.rows()[i]).len() == makespan + 1
    &&& forall|i: int, t: int|
        0 <= i < agents.len() && 0 <= t <= makespan ==> (#[trigger] a.rows()[i][t]) == row(t)
}

/// The horizon of a rolling window of `k` steps: `t + k + 1`.
pub open spec fn rolling_horizon(k: int, t: int) -> int {
    t + k + 1
}

/// `a` divided by `b`, rounded up.
pub open spec fn ceil_div(a: int, b: int) -> int {
    (a + b - 1) / b
}

/// The horizon of windows grouped in blocks of `k` steps:
/// `k * ceil((t + 1) / k) + 1`.
pub open spec fn grouped_horizon(k: int, t: int) -> int {
    k * ceil_div(t + 1, k) + 1
}

/// One agent's horizons under a rolling window.
fn kahead_row(lookahead: usize, makespan: usize) -> (row: Vec<usize>)
    requires
        lookahead + makespan + 2 <= usize::MAX,
    ensures
        row.len() == makespan + 1,
        forall|t: int| 0 <= t <= makespan ==> #[trigger] row[t] == rolling_horizon(lookahead as int, t),
{
    let mut row: Vec<usize> = Vec::new();
    let mut t: usize = 0;
    while t <= makespan
        invariant
            lookahead + makespan + 2 <= usize::MAX,
            t <= makespan + 1,
            row.len() == t,
            forall|u: int| 0 <= u < t ==> #[trigger] row[u] == rolling_horizon(lookahead as int, u),
        decreases makespan + 1 - t,
    {
        row.push(t + lookahead + 1);
        t += 1;
    }
    row
}

/// Every agent discloses, at each timestep, its next `lookahead` steps.
pub fn compute_kahead_announcements(agents: &Vec<Agent>, lookahead: usize, makespan: usize) -> (a:
    Announcements)
    requires
        lookahead + makespan + 2 <= usize::MAX,
    ensures
        announces(a, agents@, makespan as int, |t: int| rolling_horizon(lookahead as int, t)),
        a.ahead(),
{
    let mut schedule: Vec<AgentHorizons> = Vec::new();
    let mut i: usize = 0;
    while i < agents.len()
        invariant
            lookahead + makespan + 2 <= usize::MAX,
            i <= agents.len(),
            schedule.len() == i,
            forall|k: int|
                0 <= k < i ==> (#[trigger] schedule[k]).name@ == agents[k].name@
                    && schedule[k].horizons.len() == makespan + 1,
            forall|k: int, t: int|
                0 <= k < i && 0 <= t <= makespan ==> (#[trigger] schedule[k].horizons[t])
                    == rolling_horizon(lookahead as int, t),
        decreases agents.len() - i,
    {
        let horizons = kahead_row(lookahead, makespan);
        schedule.push(AgentHorizons { name: agents[i].name.clone(), horizons });
        i += 1;
    }
    let a = Announcements { schedule };
    assert(a.names() =~= agent_names(agents@));
    a
}

/// One agent's horizons under grouped windows.
fn kgrouped_row(lookahead: usize, makespan: usize) -> (row: Vec<usize>)
    requires
        1 <= lookahead,
        lookahead + makespan + 1 <= usize::MAX,
    ensures
        row.len() == makespan + 1,
        forall|t: int| 0 <= t <= makespan ==> #[trigger] row[t] == grouped_horizon(lookahead as int, t),
        forall|t: int| 0 <= t <= makespan ==> #[trigger] row[t] > t,
{
    let mut row: Vec<usize> = Vec::new();
    let mut top: usize = lookahead;
    let mut used: usize = 0;
    let ghost mut blocks: int = 1;
    let mut t: usize = 0;
    while t <= makespan
        invariant
            1 <= lookahead,
            lookahead + makespan + 1 <= usize::MAX,
            t <= makespan + 1,
            row.len() == t,
            used < lookahead,
            blocks >= 1,
            top == lookahead * blocks,
            t + lookahead == top + used,
            forall|u: int| 0 <= u < t ==> #[trigger] row[u] == grouped_horizon(lookahead as int, u),
            forall|u: int| 0 <= u < t ==> #[trigger] row[u] > u,
        decreases makespan + 1 - t,
    {
        proof {
            assert(t + lookahead == blocks * lookahead + used) by (nonlinear_arith)
                requires
                    top == lookahead * blocks,
                    t + lookahead == top + used,
            ;
            lemma_fundamental_div_mod_converse(
                t + lookahead,
                lookahead as int,
                blocks,
                used as int,
            );
            assert(ceil_div(t + 1, lookahead as int) == blocks);
        }
        row.push(top + 1);
        used += 1;
        if used == lookahead {
            used = 0;
            proof {
                assert(lookahead * (blocks + 1) == lookahead * blocks + lookahead)
                    by (nonlinear_arith);
                blocks = blocks + 1;
            }
            top += lookahead;
        }
        t += 1;
    }
    row
}

/// Every agent discloses its path in blocks of `lookahead` steps: at the
/// start of each block, the whole block.
pub fn compute_kgrouped_announcements(agents: &Vec<Agent>, lookahead: usize, makespan: usize) -> (a:
    Announcements)
    requires
        1 <= lookahead,
        lookahead + makespan + 1 <= usize::MAX,
    ensures
        announces(a, agents@, makespan as int, |t: int| grouped_horizon(lookahead as int, t)),
        a.ahead(),
{
    let mut schedule: Vec<AgentHorizons> = Vec::new();
    let mut i: usize = 0;
    while i < agents.len()
        invariant
            1 <= lookahead,
            lookahead + makespan + 1 <= usize::MAX,
            i <= agents.len(),
            schedule.len() == i,
            forall|k: int|
                0 <= k < i ==> (#[trigger] schedule[k]).name@ == agents[k].name@
                    && schedule[k].horizons.len() == makespan + 1,
            forall|k: int, t: int|
                0 <= k < i && 0 <= t <= makespan ==> (#[trigger] schedule[k].horizons[t])
                    == grouped_horizon(lookahead as int, t) && schedule[k].horizons[t] > t,
        decreases agents.len() - i,
    {
        let horizons = kgrouped_row(lookahead, makespan);
        schedule.push(AgentHorizons { name: agents[i].name.clone(), horizons });
        i += 1;
    }
    let a = Announcements { schedule };
    assert(a.names() =~= agent_names(agents@));
    a
}

/// A path that is padded has at least `makespan + 2` positions.
pub proof fn law_padded_spans(before: Seq<TimedCoordinate>, after: Seq<TimedCoordinate>, makespan: int)
    requires
        padded(before, after, makespan),
    ensures
        after.len() >= makespan + 2,
{
}

/// Every horizon of a rolling window lies after its timestep.
pub proof fn law_rolling_horizon_ahead(k: int, t: int)
    requires
        k >= 0,
    ensures
        rolling_horizon(k, t) > t,
{
}

/// Every horizon of grouped windows lies after its timestep.
pub proof fn law_grouped_horizon_ahead(k: int, t: int)
    requires
        k >= 1,
        t >= 0,
    ensures
        grouped_horizon(k, t) > t,
{
    lemma_fundamental_div_mod(t + k, k);
    let q = (t + k) / k;
    let r = (t + k) % k;
    assert(0 <= r < k) by (nonlinear_arith)
        requires
            k >= 1,
            r == (t + k) % k,
    ;
    assert(ceil_div(t + 1, k) == q);
}

/// Every robust horizon lies after its timestep.
pub proof fn law_robust_horizon_ahead(
    table: Table,
    names: Seq<Seq<char>>,
    makespan: int,
    i: int,
    row: Seq<usize>,
    t: int,
)
    requires
        robust_row(table, names, makespan, i, row),
        0 <= t <= makespan,
    ensures
        row[t] > t,
    decreases t,
{
    if t > 0 && row[t - 1] > t + 1 {
        assert(row[t] == row[t - 1]);
    } else {
        assert(fresh_horizon(table, names, makespan, i, t, row[t] as int));
    }
}

/// Under a rolling window of `k` steps the least lookahead is `k`.
pub proof fn law_kahead_min_lookahead(
    a: Announcements,
    agents: Seq<Agent>,
    makespan: int,
    k: int,
    least: int,
)
    requires
        agents.len() > 0,
        makespan >= 0,
        announces(a, agents, makespan, |t: int| rolling_horizon(k, t)),
        a.least_lookahead(least),
    ensures
        least == k,
{
    assert(a.rows()[0].len() == makespan + 1);
    assert(a.rows()[0][0] == rolling_horizon(k, 0));
}

/// Under a rolling window an announcement is made at every timestep: the
/// least distance between two announcements is 1.
pub proof fn law_kahead_min_inter_announcement_time(
    a: Announcements,
    agents: Seq<Agent>,
    makespan: int,
    k: int,
    least: int,
)
    requires
        agents.len() > 0,
        makespan >= 0,
        announces(a, agents, makespan, |t: int| rolling_horizon(k, t)),
        a.least_gap(least),
    ensures
        least == 1,
{
    assert(a.rows()[0].len() == makespan + 1);
    assert(a.announced(0));
    if makespan >= 1 {
        assert(a.rows()[0][0] == rolling_horizon(k, 0));
        assert(a.rows()[0][1] == rolling_horizon(k, 1));
        assert(a.changed(1));
        assert(a.announced(1));
    }
}

/// The grouped horizon changes exactly at the multiples of `k`.
pub proof fn lemma_block_start(k: int, t: int)
    requires
        k >= 1,
        t >= 1,
    ensures
        grouped_horizon(k, t) != grouped_horizon(k, t - 1) <==> t % k == 0,
{
    let q = (t + k) / k;
    let r = (t + k) % k;
    lemma_fundamental_div_mod(t + k, k);
    lemma_fundamental_div_mod(t, k);
    assert(0 <= r < k && 0 <= t % k < k) by (nonlinear_arith)
        requires
            k >= 1,
            r == (t + k) % k,
    ;
    assert(t + k == (t / k + 1) * k + t % k) by (nonlinear_arith)
        requires
            t == k * (t / k) + t % k,
    ;
    lemma_fundamental_div_mod_converse(t + k, k, t / k + 1, t % k);
    if r >= 1 {
        assert(t + k - 1 == q * k + (r - 1)) by (nonlinear_arith)
            requires
                t + k == k * q + r,
        ;
        lemma_fundamental_div_mod_converse(t + k - 1, k, q, r - 1);
        assert(ceil_div(t, k) == q);
        assert(ceil_div(t + 1, k) == q);
    } else {
        assert(t + k - 1 == (q - 1) * k + (k - 1)) by (nonlinear_arith)
            requires
                t + k == k * q + r,
                r == 0,
        ;
        lemma_fundamental_div_mod_converse(t + k - 1, k, q - 1, k - 1);
        assert(ceil_div(t, k) == q - 1);
        assert(ceil_div(t + 1, k) == q);
        assert(k * q != k * (q - 1)) by (nonlinear_arith)
            requires
                k >= 1,
        ;
    }
}

/// Two different multiples of `k` lie at least `k` apart.
proof fn lemma_multiples_apart(k: int, u: int, v: int)
    requires
        k >= 1,
        0 <= u < v,
        u % k == 0,
        v % k == 0,
    ensures
        v - u >= k,
{
    lemma_fundamental_div_mod(u, k);
    lemma_fundamental_div_mod(v, k);
    assert(v - u >= k) by (nonlinear_arith)
        requires
            k >= 1,
            u < v,
            u == k * (u / k),
            v == k * (v / k),
    ;
}

/// Under windows grouped in blocks of `k` steps, with a block starting no
/// later than the timestep after the makespan, the least distance between two
/// announcements is `k`.
pub proof fn law_kgrouped_min_inter_announcement_time(
    a: Announcements,
    agents: Seq<Agent>,
    makespan: int,
    k: int,
    least: int,
)
    requires
        agents.len() > 0,
        1 <= k <= makespan + 1,
        announces(a, agents, makespan, |t: int| grouped_horizon(k, t)),
        a.least_gap(least),
    ensures
        least == k,
{
    assert(a.rows()[0].len() == makespan + 1);
    assert forall|t: int| 0 <= t <= makespan implies (#[trigger] a.announced(t) <==> t % k == 0) by {
        if t >= 1 {
            lemma_block_start(k, t);
            if a.changed(t) {
                let i = choose|i: int|
                    0 <= i < a.schedule.len() && (#[trigger] a.rows()[i])[t] != a.rows()[i][t - 1];
                assert(a.rows()[i][t] == grouped_horizon(k, t));
                assert(a.rows()[i][t - 1] == grouped_horizon(k, t - 1));
            } else {
                assert(a.rows()[0][t] == grouped_horizon(k, t));
                assert(a.rows()[0][t - 1] == grouped_horizon(k, t - 1));
            }
        } else {
            assert(0int % k == 0) by (nonlinear_arith)
                requires
                    k >= 1,
            ;
        }
    }
    assert forall|u: int, v: int|
        #![trigger a.announced(u), a.announced(v)]
        0 <= u < v < a.span() && a.announced(u) && a.announced(v) implies v - u >= k by {
        lemma_multiples_apart(k, u, v);
    }
    if k <= makespan {
        assert(k % k == 0) by (nonlinear_arith)
            requires
                k >= 1,
        ;
        assert(a.announced(0) && a.announced(k));
    }
}

/// A robust horizon that lies within the makespan is blocked from the
/// timestep `w` at which it was first announced: an agent under another name
/// stands on the withheld position at some time strictly between `w` and the
/// horizon. A horizon that is not carried over is first announced at its own
/// timestep.
pub proof fn law_robust_blocked(
    table: Table,
    names: Seq<Seq<char>>,
    makespan: int,
    i: int,
    row: Seq<usize>,
    t: int,
) -> (w: int)
    requires
        robust_row(table, names, makespan, i, row),
        0 <= t <= makespan,
        row[t] <= makespan,
    ensures
        0 <= w <= t,
        row[w] == row[t],
        blocked(table, names, i, w, row[t] as int),
        !(t > 0 && row[t - 1] > t + 1) ==> w == t,
    decreases t,
{
    if t > 0 && row[t - 1] > t + 1 {
        assert(row[t] == row[t - 1]);
        law_robust_blocked(table, names, makespan, i, row, t - 1)
    } else {
        assert(fresh_horizon(table, names, makespan, i, t, row[t] as int));
        t
    }
}

/// Agent `i` cannot yet announce, at time `t`, where it will stand at time
/// `at`: an agent under another name stands there at some time strictly
/// between `t` and `at`.
pub open spec fn blocked(table: Table, names: Seq<Seq<char>>, i: int, t: int, at: int) -> bool {
    exists|j: int, s: int|
        #![trigger table[j][s]]
        0 <= j < table.len() && names[j] != names[i] && t < s < at && table[j][s] == table[i][at]
}

/// `v` is the horizon that agent `i` announces afresh at time `t`: the first
/// timestep after `t + 1`, up to the makespan, at which it is blocked, or
/// `makespan + 1` where there is none.
pub open spec fn fresh_horizon(
    table: Table,
    names: Seq<Seq<char>>,
    makespan: int,
    i: int,
    t: int,
    v: int,
) -> bool {
    &&& v <= makespan + 1
    &&& v <= makespan ==> t + 1 < v && blocked(table, names, i, t, v)
    &&& forall|at: int| t + 1 < at < v ==> !#[trigger] blocked(table, names, i, t, at)
}

/// `row` holds the robust horizons of agent `i`: at each timestep the
/// previous horizon where that still reaches beyond the next timestep, and a
/// fresh one otherwise.
pub open spec fn robust_row(
    table: Table,
    names: Seq<Seq<char>>,
    makespan: int,
    i: int,
    row: Seq<usize>,
) -> bool {
    &&& row.len() == makespan + 1
    &&& forall|t: int|
        0 <= t <= makespan ==> if t > 0 && row[t - 1] > t + 1 {
            #[trigger] row[t] == row[t - 1]
        } else {
            fresh_horizon(table, names, makespan, i, t, row[t] as int)
        }
}

/// Whether agent `i` is blocked at time `t` from announcing its position at
/// time `at`.
fn is_blocked(paths: &Vec<Vec<Coordinate>>, agents: &Vec<Agent>, i: usize, t: usize, at: usize) -> (b:
    bool)
    requires
        paths.len() == agents.len(),
        i < agents.len(),
        t < at,
        covers(rows(paths@), at as int),
    ensures
        b == blocked(rows(paths@), agent_names(agents@), i as int, t as int, at as int),
{
    let ghost table = rows(paths@);
    let ghost names = agent_names(agents@);
    assert(table[i as int].len() > at);
    let target = paths[i][at];
    let mut j: usize = 0;
    while j < agents.len()
        invariant
            paths.len() == agents.len(),
            i < agents.len(),
            t < at,
            table == rows(paths@),
            names == agent_names(agents@),
            covers(table, at as int),
            target == table[i as int][at as int],
            j <= agents.len(),
            forall|k: int, s: int|
                #![trigger table[k][s]]
                0 <= k < j && t < s < at ==> !(names[k] != names[i as int] && table[k][s] == target),
        decreases agents.len() - j,
    {
        assert(table[j as int].len() > at);
        if !(agents[j].name == agents[i].name) {
            assert(names[j as int] != names[i as int]);
            let path = &paths[j];
            let mut s: usize = t + 1;
            while s < at
                invariant
                    t < s <= at,
                    at < path.len(),
                    j < paths.len(),
                    i < paths.len(),
                    paths.len() == agents.len(),
                    table == rows(paths@),
                    names == agent_names(agents@),
                    names[j as int] != names[i as int],
                    covers(table, at as int),
                    path@ == table[j as int],
                    target == table[i as int][at as int],
                    forall|u: int| t < u < s ==> #[trigger] path[u] != target,
                decreases at - s,
            {
                if path[s] == target {
                    assert(table[j as int][s as int] == table[i as int][at as int]);
                    return true;
                }
                s += 1;
            }
        } else {
            assert(names[j as int] == names[i as int]);
        }
        j += 1;
    }
    false
}

/// The horizon that agent `i` announces afresh at time `t`.
fn fresh_at(paths: &Vec<Vec<Coordinate>>, agents: &Vec<Agent>, i: usize, t: usize, makespan: usize) -> (v:
    usize)
    requires
        paths.len() == agents.len(),
        i < agents.len(),
        t <= makespan < usize::MAX,
        covers(rows(paths@), makespan as int),
    ensures
        fresh_horizon(
            rows(paths@),
            agent_names(agents@),
            makespan as int,
            i as int,
            t as int,
            v as int,
        ),
{
    if makespan - t < 2 {
        return makespan + 1;
    }
    let mut at: usize = t + 2;
    while at <= makespan
        invariant
            paths.len() == agents.len(),
            i < agents.len(),
            t + 2 <= at <= makespan + 1,
            makespan < usize::MAX,
            covers(rows(paths@), makespan as int),
            forall|u: int|
                t + 1 < u < at ==> !#[trigger] blocked(
                    rows(paths@),
                    agent_names(agents@),
                    i as int,
                    t as int,
                    u,
                ),
        decreases makespan + 1 - at,
    {
        if is_blocked(paths, agents, i, t, at) {
            return at;
        }
        at += 1;
    }
    makespan + 1
}

/// The robust horizons of agent `i`.
fn robust_horizons(paths: &Vec<Vec<Coordinate>>, agents: &Vec<Agent>, i: usize, makespan: usize) -> (row:
    Vec<usize>)
    requires
        paths.len() == agents.len(),
        i < agents.len(),
        makespan < usize::MAX,
        covers(rows(paths@), makespan as int),
    ensures
        robust_row(rows(paths@), agent_names(agents@), makespan as int, i as int, row@),
        forall|t: int| 0 <= t <= makespan ==> #[trigger] row[t] > t,
{
    let ghost table = rows(paths@);
    let ghost names = agent_names(agents@);
    let mut row: Vec<usize> = Vec::new();
    let mut t: usize = 0;
    while t <= makespan
        invariant
            paths.len() == agents.len(),
            i < agents.len(),
            makespan < usize::MAX,
            table == rows(paths@),
            names == agent_names(agents@),
            covers(table, makespan as int),
            t <= makespan + 1,
            row.len() == t,
            forall|u: int| 0 <= u < t ==> #[trigger] row[u] > u,
            forall|u: int|
                0 <= u < t ==> if u > 0 && row[u - 1] > u + 1 {
                    #[trigger] row[u] == row[u - 1]
                } else {
                    fresh_horizon(table, names, makespan as int, i as int, u, row[u] as int)
                },
        decreases makespan + 1 - t,
    {
        let v = if t > 0 && row[t - 1] > t + 1 {
            row[t - 1]
        } else {
            fresh_at(paths, agents, i, t, makespan)
        };
        row.push(v);
        t += 1;
    }
    row
}

/// Every agent announces, at each timestep, its path up to the first
/// position that another agent still has to cross before it.
pub fn compute_robust_announcements(instance: &MapfInstance, solution: &MapfSolution) -> (a:
    Announcements)
    requires
        solution.spans(),
        solution.knows(instance.agents@),
    ensures
        a.names() == agent_names(instance.agents@),
        a.schedule.len() == instance.agents.len(),
        forall|i: int|
            0 <= i < instance.agents.len() ==> robust_row(
                solution.aligned(instance.agents@),
                agent_names(instance.agents@),
                solution.statistics.makespan as int,
                i,
                #[trigger] a.rows()[i],
            ),
        a.ahead(),
{
    let agents = &instance.agents;
    let makespan = solution.statistics.makespan;
    let paths = match solution.paths_of(agents) {
        Some(paths) => paths,
        None => {
            return Announcements { schedule: Vec::new() };
        },
    };
    proof {
        solution.lemma_aligned_covers(agents@);
        assert(rows(paths@).len() == paths.len());
    }
    let ghost table = rows(paths@);
    let ghost names = agent_names(agents@);
    let mut schedule: Vec<AgentHorizons> = Vec::new();
    let mut i: usize = 0;
    while i < agents.len()
        invariant
            paths.len() == agents.len(),
            table == rows(paths@),
            names == agent_names(agents@),
            covers(table, makespan as int),
            i <= agents.len(),
            schedule.len() == i,
            forall|k: int|
                0 <= k < i ==> (#[trigger] schedule[k]).name@ == agents[k].name@ && robust_row(
                    table,
                    names,
                    makespan as int,
                    k,
                    schedule[k].horizons@,
                ),
            forall|k: int, t: int|
                0 <= k < i && 0 <= t <= makespan ==> (#[trigger] schedule[k].horizons[t]) > t,
        decreases agents.len() - i,
    {
        assert(table[i as int].len() > makespan);
        let width = paths[i].len();
        let horizons = robust_horizons(&paths, agents, i, makespan);
        schedule.push(AgentHorizons { name: agents[i].name.clone(), horizons });
        i += 1;
    }
    let a = Announcements { schedule };
    assert(a.names() =~= agent_names(agents@));
    a
}

} // verus!
