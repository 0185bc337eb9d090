//! The bold attacker: at each timestep it heads for the safe cell, or back
//! to its plan, on what is left of the time-expanded graph.

use crate::graph::{build_graph, cell_of, is_edge, is_node, Node, TimeGraph};
use crate::inputs::{Coordinate, TimedCoordinate};
use crate::plan::Scenario;
use crate::search::{
    admissible, astar_route, hop, is_route, lemma_reach_admissible, lemma_route_in_time, shortest,
    steps_in_time, Goal,
};
use crate::table::{paths_valid, rows, valid_until, Table};
use vstd::prelude::*;

verus! {

/// The first timestep that defender `d` has not disclosed at time `now`,
/// within the timesteps up to the makespan.
pub open spec fn disclosed_until(plan: Scenario, d: int, now: int) -> int {
    if plan.horizons[d][now] < plan.makespan + 1 {
        plan.horizons[d][now] as int
    } else {
        plan.makespan + 1
    }
}

/// Defender `d` denies the attacker `a` the node `n`: it stands there by its
/// plan; or, under mitigation, it stands next to it, and the attacker would
/// there not be where its own plan has it.
pub open spec fn denies(plan: Scenario, a: int, mitigation: bool, d: int, n: Node) -> bool {
    let held = plan.paths[d][n.2 as int];
    cell_of(n) == held || (mitigation && cell_of(n).near(held) && cell_of(n) != plan.paths[a][n.2 as int])
}

/// The node `n` is pruned at time `now`: some defender denies it at a
/// timestep, from 1 on, that the defender has disclosed.
pub open spec fn pruned(plan: Scenario, a: int, now: int, mitigation: bool, n: Node) -> bool {
    exists|d: int|
        0 <= d < plan.names.len() && plan.opposes(a, d) && 1 <= n.2 < #[trigger] disclosed_until(
            plan,
            d,
            now,
        ) && denies(plan, a, mitigation, d, n)
}

/// The node `n` is pruned by one of the first `done` defenders, or by
/// defender `done` at a timestep before `t`.
pub open spec fn pruned_so_far(
    plan: Scenario,
    a: int,
    now: int,
    mitigation: bool,
    n: Node,
    done: int,
    t: int,
) -> bool {
    exists|d: int|
        0 <= d < plan.names.len() && plan.opposes(a, d) && 1 <= n.2 < #[trigger] disclosed_until(
            plan,
            d,
            now,
        ) && denies(plan, a, mitigation, d, n) && (d < done || (d == done && n.2 < t))
}

/// Removes from the graph, at time `t`, the cell that a defender holds and,
/// under mitigation, the cells next to it other than `nominal`, where the
/// attacker stands by its plan.
fn clear_around(g: &mut TimeGraph, held: Coordinate, nominal: Coordinate, t: usize, mitigation: bool)
    ensures
        final(g).nodes() == old(g).nodes().filter(
            |n: Node|
                !(n.2 == t && (cell_of(n) == held || (mitigation && cell_of(n).near(held) && cell_of(n)
                    != nominal))),
        ),
        final(g).edges() == old(g).edges().filter(
            |e: (Node, Node)|
                !(e.0.2 == t && (cell_of(e.0) == held || (mitigation && cell_of(e.0).near(held)
                    && cell_of(e.0) != nominal))) && !(e.1.2 == t && (cell_of(e.1) == held || (
                mitigation && cell_of(e.1).near(held) && cell_of(e.1) != nominal))),
        ),
{
    g.remove_node((held.x, held.y, t));
    if mitigation {
        if held.x > 0 {
            let c = Coordinate { x: (held.x - 1) as u16, y: held.y };
            if c != nominal {
                g.remove_node((c.x, c.y, t));
            }
        }
        if held.x < u16::MAX {
            let c = Coordinate { x: (held.x + 1) as u16, y: held.y };
            if c != nominal {
                g.remove_node((c.x, c.y, t));
            }
        }
        if held.y > 0 {
            let c = Coordinate { x: held.x, y: (held.y - 1) as u16 };
            if c != nominal {
                g.remove_node((c.x, c.y, t));
            }
        }
        if held.y < u16::MAX {
            let c = Coordinate { x: held.x, y: (held.y + 1) as u16 };
            if c != nominal {
                g.remove_node((c.x, c.y, t));
            }
        }
    }
    assert(g.nodes() =~= old(g).nodes().filter(
        |n: Node|
            !(n.2 == t && (cell_of(n) == held || (mitigation && cell_of(n).near(held) && cell_of(n)
                != nominal))),
    ));
    assert(g.edges() =~= old(g).edges().filter(
        |e: (Node, Node)|
            !(e.0.2 == t && (cell_of(e.0) == held || (mitigation && cell_of(e.0).near(held) && cell_of(
                e.0,
            ) != nominal))) && !(e.1.2 == t && (cell_of(e.1) == held || (mitigation && cell_of(
                e.1,
            ).near(held) && cell_of(e.1) != nominal))),
    ));
}

/// Prunes the graph by what the defenders have announced at time `now`: for
/// each defender and each timestep from 1 on that it has disclosed, the node
/// that the defender holds leaves the graph, with the move that the defender
/// makes into it; under mitigation so do the nodes next to it, but for the
/// one where the attacker stands by its plan.
pub fn prune_graph(g: &mut TimeGraph, plan: &Scenario, attacker: usize, now: usize, mitigation: bool)
    requires
        plan.wf(),
        attacker < plan.names.len(),
        now <= plan.makespan,
    ensures
        final(g).nodes() == old(g).nodes().filter(
            |n: Node| !pruned(*plan, attacker as int, now as int, mitigation, n),
        ),
        final(g).edges() == old(g).edges().filter(
            |e: (Node, Node)|
                !pruned(*plan, attacker as int, now as int, mitigation, e.0) && !pruned(
                    *plan,
                    attacker as int,
                    now as int,
                    mitigation,
                    e.1,
                ),
        ),
{
    let ghost a = attacker as int;
    let n = plan.names.len();
    let mut d: usize = 0;
    assert(g.nodes() =~= old(g).nodes().filter(
        |n: Node| !pruned_so_far(*plan, a, now as int, mitigation, n, 0, 0),
    ));
    assert(g.edges() =~= old(g).edges().filter(
        |e: (Node, Node)|
            !pruned_so_far(*plan, a, now as int, mitigation, e.0, 0, 0) && !pruned_so_far(
                *plan,
                a,
                now as int,
                mitigation,
                e.1,
                0,
                0,
            ),
    ));
    while d < n
        invariant
            plan.wf(),
            a == attacker,
            attacker < plan.names.len(),
            now <= plan.makespan,
            n == plan.names.len(),
            d <= n,
            g.nodes() == old(g).nodes().filter(
                |n: Node| !pruned_so_far(*plan, a, now as int, mitigation, n, d as int, 0),
            ),
            g.edges() == old(g).edges().filter(
                |e: (Node, Node)|
                    !pruned_so_far(*plan, a, now as int, mitigation, e.0, d as int, 0)
                        && !pruned_so_far(*plan, a, now as int, mitigation, e.1, d as int, 0),
            ),
        decreases n - d,
    {
        if plan.defends(attacker, d) {
            let horizon = plan.horizons[d][now];
            let limit = if horizon < plan.makespan + 1 {
                horizon
            } else {
                plan.makespan + 1
            };
            assert(limit == disclosed_until(*plan, d as int, now as int));
            let mut t: usize = 1;
            assert(g.nodes() =~= old(g).nodes().filter(
                |n: Node| !pruned_so_far(*plan, a, now as int, mitigation, n, d as int, 1),
            ));
            assert(g.edges() =~= old(g).edges().filter(
                |e: (Node, Node)|
                    !pruned_so_far(*plan, a, now as int, mitigation, e.0, d as int, 1)
                        && !pruned_so_far(*plan, a, now as int, mitigation, e.1, d as int, 1),
            ));
            while t < limit
                invariant
                    plan.wf(),
                    a == attacker,
                    attacker < plan.names.len(),
                    now <= plan.makespan,
                    n == plan.names.len(),
                    d < n,
                    plan.opposes(a, d as int),
                    limit == disclosed_until(*plan, d as int, now as int),
                    1 <= t,
                    t <= limit || limit == 0,
                    g.nodes() == old(g).nodes().filter(
                        |n: Node|
                            !pruned_so_far(*plan, a, now as int, mitigation, n, d as int, t as int),
                    ),
                    g.edges() == old(g).edges().filter(
                        |e: (Node, Node)|
                            !pruned_so_far(*plan, a, now as int, mitigation, e.0, d as int, t as int)
                                && !pruned_so_far(
                                *plan,
                                a,
                                now as int,
                                mitigation,
                                e.1,
                                d as int,
                                t as int,
                            ),
                    ),
                decreases limit - t,
            {
                let held = plan.paths[d][t];
                let came_from = plan.paths[d][t - 1];
                let nominal = plan.paths[attacker][t];
                g.remove_edge((came_from.x, came_from.y, (t - 1) as usize), (held.x, held.y, t));
                clear_around(g, held, nominal, t, mitigation);
                let ghost before = t as int;
                t += 1;
                assert forall|n: Node|
                    pruned_so_far(*plan, a, now as int, mitigation, n, d as int, t as int)
                        <==> pruned_so_far(*plan, a, now as int, mitigation, n, d as int, before) || (n.2
                        == before && (cell_of(n) == held || (mitigation && cell_of(n).near(held)
                        && cell_of(n) != nominal))) by {
                    if pruned_so_far(*plan, a, now as int, mitigation, n, d as int, before) {
                        let w = choose|w: int|
                            0 <= w < plan.names.len() && plan.opposes(a, w) && 1 <= n.2
                                < #[trigger] disclosed_until(*plan, w, now as int) && denies(
                                *plan,
                                a,
                                mitigation,
                                w,
                                n,
                            ) && (w < d || (w == d && n.2 < before));
                        assert(disclosed_until(*plan, w, now as int) > n.2);
                    }
                    if n.2 == before && (cell_of(n) == held || (mitigation && cell_of(n).near(held)
                        && cell_of(n) != nominal)) {
                        assert(disclosed_until(*plan, d as int, now as int) > n.2);
                        assert(denies(*plan, a, mitigation, d as int, n));
                    }
                }
                assert(g.nodes() =~= old(g).nodes().filter(
                    |n: Node| !pruned_so_far(*plan, a, now as int, mitigation, n, d as int, t as int),
                ));
                assert(g.edges() =~= old(g).edges().filter(
                    |e: (Node, Node)|
                        !pruned_so_far(*plan, a, now as int, mitigation, e.0, d as int, t as int)
                            && !pruned_so_far(
                            *plan,
                            a,
                            now as int,
                            mitigation,
                            e.1,
                            d as int,
                            t as int,
                        ),
                ));
            }
        }
        let ghost finished = d as int;
        let ghost reached: int = if plan.opposes(a, finished) {
            let limit = disclosed_until(*plan, finished, now as int);
            if limit > 1 {
                limit
            } else {
                1
            }
        } else {
            0
        };
        d += 1;
        assert forall|n: Node|
            pruned_so_far(*plan, a, now as int, mitigation, n, d as int, 0) <==> pruned_so_far(
                *plan,
                a,
                now as int,
                mitigation,
                n,
                finished,
                reached,
            ) by {
            if pruned_so_far(*plan, a, now as int, mitigation, n, d as int, 0) {
                let w = choose|w: int|
                    0 <= w < plan.names.len() && plan.opposes(a, w) && 1 <= n.2
                        < #[trigger] disclosed_until(*plan, w, now as int) && denies(
                        *plan,
                        a,
                        mitigation,
                        w,
                        n,
                    ) && (w < d || (w == d && n.2 < 0));
                assert(disclosed_until(*plan, w, now as int) > n.2);
            }
            if pruned_so_far(*plan, a, now as int, mitigation, n, finished, reached) {
                let w = choose|w: int|
                    0 <= w < plan.names.len() && plan.opposes(a, w) && 1 <= n.2
                        < #[trigger] disclosed_until(*plan, w, now as int) && denies(
                        *plan,
                        a,
                        mitigation,
                        w,
                        n,
                    ) && (w < finished || (w == finished && n.2 < reached));
                assert(disclosed_until(*plan, w, now as int) > n.2);
            }
        }
        assert(g.nodes() =~= old(g).nodes().filter(
            |n: Node| !pruned_so_far(*plan, a, now as int, mitigation, n, d as int, 0),
        ));
        assert(g.edges() =~= old(g).edges().filter(
            |e: (Node, Node)|
                !pruned_so_far(*plan, a, now as int, mitigation, e.0, d as int, 0) && !pruned_so_far(
                    *plan,
                    a,
                    now as int,
                    mitigation,
                    e.1,
                    d as int,
                    0,
                ),
        ));
    }
    assert forall|n: Node|
        pruned_so_far(*plan, a, now as int, mitigation, n, d as int, 0) <==> pruned(
            *plan,
            a,
            now as int,
            mitigation,
            n,
        ) by {
        if pruned(*plan, a, now as int, mitigation, n) {
            let w = choose|w: int|
                0 <= w < plan.names.len() && plan.opposes(a, w) && 1 <= n.2
                    < #[trigger] disclosed_until(*plan, w, now as int) && denies(
                    *plan,
                    a,
                    mitigation,
                    w,
                    n,
                );
            assert(disclosed_until(*plan, w, now as int) > n.2);
        }
    }
    assert(g.nodes() =~= old(g).nodes().filter(
        |n: Node| !pruned(*plan, a, now as int, mitigation, n),
    ));
    assert(g.edges() =~= old(g).edges().filter(
        |e: (Node, Node)|
            !pruned(*plan, a, now as int, mitigation, e.0) && !pruned(
                *plan,
                a,
                now as int,
                mitigation,
                e.1,
            ),
    ));
}

/// At time `t` some defender that has disclosed that timestep at time `now`
/// stands next to where the attacker `a` stands by its plan.
pub open spec fn watched(plan: Scenario, a: int, now: int, t: int) -> bool {
    exists|d: int|
        0 <= d < plan.names.len() && plan.opposes(a, d) && t < (#[trigger] plan.horizons[d])[now]
            && plan.paths[d][t].near(plan.paths[a][t])
}

/// The first timestep after `now` that the attacker has not disclosed at
/// time `now`, within the timesteps of the paths.
pub open spec fn own_limit(plan: Scenario, a: int, now: int) -> int {
    if plan.horizons[a][now] < plan.makespan + 2 {
        plan.horizons[a][now] as int
    } else {
        plan.makespan + 2
    }
}

/// The next known observation: the first timestep after `now`, among those
/// that the attacker has disclosed at time `now`, at which a defender that
/// has disclosed it too stands next to the attacker's planned position.
pub fn next_observed(plan: &Scenario, attacker: usize, now: usize) -> (seen: Option<usize>)
    requires
        plan.wf(),
        attacker < plan.names.len(),
        now <= plan.makespan,
    ensures
        match seen {
            Some(t) => now < t < own_limit(*plan, attacker as int, now as int) && watched(
                *plan,
                attacker as int,
                now as int,
                t as int,
            ),
            None => true,
        },
        forall|u: int|
            now < u < own_limit(*plan, attacker as int, now as int) && (seen matches Some(t) ==> u < t)
                ==> !#[trigger] watched(*plan, attacker as int, now as int, u),
{
    let horizon = plan.horizons[attacker][now];
    let limit = if horizon < plan.makespan + 2 {
        horizon
    } else {
        plan.makespan + 2
    };
    let n = plan.names.len();
    let mut t: usize = now + 1;
    while t < limit
        invariant
            plan.wf(),
            attacker < plan.names.len(),
            n == plan.names.len(),
            now < t,
            limit == own_limit(*plan, attacker as int, now as int),
            now <= plan.makespan,
            forall|u: int|
                now < u < t && u < limit ==> !#[trigger] watched(
                    *plan,
                    attacker as int,
                    now as int,
                    u,
                ),
        decreases limit - t,
    {
        let target = plan.paths[attacker][t];
        let mut d: usize = 0;
        while d < n
            invariant
                plan.wf(),
                attacker < plan.names.len(),
                n == plan.names.len(),
                now < t < limit,
                limit <= plan.makespan + 2,
                limit == own_limit(*plan, attacker as int, now as int),
                now <= plan.makespan,
                d <= n,
                target == plan.paths[attacker as int][t as int],
                forall|u: int|
                    now < u < t && u < limit ==> !#[trigger] watched(
                        *plan,
                        attacker as int,
                        now as int,
                        u,
                    ),
                forall|k: int|
                    0 <= k < d ==> !(plan.opposes(attacker as int, k) && t < (
                    #[trigger] plan.horizons[k])[now as int] && plan.paths[k][t as int].near(target)),
            decreases n - d,
        {
            if plan.defends(attacker, d) && t < plan.horizons[d][now] && plan.paths[d][t].adj(&target) {
                return Some(t);
            }
            d += 1;
        }
        t += 1;
    }
    None
}

/// At time `now` every agent has disclosed its path beyond time `t`.
pub open spec fn all_disclose(plan: Scenario, now: int, t: int) -> bool {
    forall|i: int| 0 <= i < plan.names.len() ==> (#[trigger] plan.horizons[i])[now] > t
}

/// Whether at time `now` every agent has disclosed its path beyond time `t`.
pub fn full_information(plan: &Scenario, now: usize, t: usize) -> (b: bool)
    requires
        plan.wf(),
        now <= plan.makespan,
    ensures
        b == all_disclose(*plan, now as int, t as int),
{
    let mut i: usize = 0;
    while i < plan.names.len()
        invariant
            plan.wf(),
            now <= plan.makespan,
            i <= plan.names.len(),
            forall|k: int| 0 <= k < i ==> (#[trigger] plan.horizons[k])[now as int] > t,
        decreases plan.names.len() - i,
    {
        if plan.horizons[i][now] <= t {
            return false;
        }
        i += 1;
    }
    true
}

/// The least horizon that any agent has announced at time `now`.
pub fn known_horizon(plan: &Scenario, now: usize) -> (least: usize)
    requires
        plan.wf(),
        now <= plan.makespan,
        plan.names.len() > 0,
    ensures
        forall|i: int| 0 <= i < plan.names.len() ==> least <= (#[trigger] plan.horizons[i])[now as int],
        exists|i: int| 0 <= i < plan.names.len() && least == (#[trigger] plan.horizons[i])[now as int],
{
    let mut least = plan.horizons[0][now];
    let mut i: usize = 1;
    while i < plan.names.len()
        invariant
            plan.wf(),
            now <= plan.makespan,
            1 <= i <= plan.names.len(),
            forall|k: int| 0 <= k < i ==> least <= (#[trigger] plan.horizons[k])[now as int],
            exists|k: int| 0 <= k < i && least == (#[trigger] plan.horizons[k])[now as int],
        decreases plan.names.len() - i,
    {
        if plan.horizons[i][now] < least {
            least = plan.horizons[i][now];
        }
        i += 1;
    }
    least
}

/// A defender stands, at time `t`, next to where the attacker `a` stands by
/// its plan, while the attacker is on the cell `at` and not there.
pub open spec fn missed(plan: Scenario, a: int, t: int, at: Coordinate) -> bool {
    at != plan.paths[a][t] && exists|d: int|
        0 <= d < plan.names.len() && plan.opposes(a, d) && (#[trigger] plan.paths[d])[t].near(
            plan.paths[a][t],
        )
}

/// Whether a defender misses the attacker, which is on the cell `at`, where
/// it expects to observe it at time `t`.
pub fn missed_observation(plan: &Scenario, attacker: usize, t: usize, at: Coordinate) -> (b: bool)
    requires
        plan.wf(),
        attacker < plan.names.len(),
        t <= plan.makespan,
    ensures
        b == missed(*plan, attacker as int, t as int, at),
{
    let nominal = plan.paths[attacker][t];
    if at == nominal {
        return false;
    }
    let mut d: usize = 0;
    while d < plan.names.len()
        invariant
            plan.wf(),
            attacker < plan.names.len(),
            t <= plan.makespan,
            d <= plan.names.len(),
            nominal == plan.paths[attacker as int][t as int],
            at != nominal,
            forall|k: int|
                0 <= k < d ==> !(plan.opposes(attacker as int, k) && (#[trigger] plan.paths[k])[t as int].near(
                    nominal,
                )),
        decreases plan.names.len() - d,
    {
        if plan.defends(attacker, d) && plan.paths[d][t].adj(&nominal) {
            return true;
        }
        d += 1;
    }
    false
}

/// The cells of a sequence of timed positions.
pub open spec fn cells_of(deviation: Seq<TimedCoordinate>) -> Seq<Coordinate> {
    Seq::new(deviation.len(), |u: int| deviation[u].cell())
}

/// The joint schedule up to time `t` in which the attacker `a` has taken the
/// given positions and every other agent has kept to its plan.
pub open spec fn deviated(plan: Scenario, a: int, deviation: Seq<TimedCoordinate>, t: int) -> Table {
    Seq::new(
        plan.paths.len() as nat,
        |i: int|
            if i == a {
                cells_of(deviation)
            } else {
                plan.paths[i]@.take(t + 1)
            },
    )
}

/// Whether the joint schedule up to time `t`, with the attacker on the given
/// positions, is valid.
pub fn deviation_valid(plan: &Scenario, attacker: usize, deviation: &Vec<TimedCoordinate>, t: usize) -> (b:
    bool)
    requires
        plan.wf(),
        attacker < plan.names.len(),
        t <= plan.makespan,
        deviation.len() == t + 1,
    ensures
        b == valid_until(deviated(*plan, attacker as int, deviation@, t as int), plan.map.dimensions, t as int),
{
    let ghost wanted = deviated(*plan, attacker as int, deviation@, t as int);
    let mut paths: Vec<Vec<Coordinate>> = Vec::new();
    let mut i: usize = 0;
    while i < plan.paths.len()
        invariant
            plan.wf(),
            attacker < plan.names.len(),
            t <= plan.makespan,
            deviation.len() == t + 1,
            wanted == deviated(*plan, attacker as int, deviation@, t as int),
            i <= plan.paths.len(),
            paths.len() == i,
            forall|k: int| 0 <= k < i ==> (#[trigger] paths[k])@ == wanted[k],
        decreases plan.paths.len() - i,
    {
        let mut row: Vec<Coordinate> = Vec::new();
        let mut u: usize = 0;
        while u <= t
            invariant
                plan.wf(),
                attacker < plan.names.len(),
                i < plan.paths.len(),
                t <= plan.makespan,
                deviation.len() == t + 1,
                u <= t + 1,
                row.len() == u,
                forall|v: int|
                    0 <= v < u ==> #[trigger] row[v] == if i == attacker {
                        deviation[v].cell()
                    } else {
                        plan.paths[i as int][v]
                    },
            decreases t + 1 - u,
        {
            if i == attacker {
                row.push(deviation[u].coordinate());
            } else {
                row.push(plan.paths[i][u]);
            }
            u += 1;
        }
        assert(row@ =~= wanted[i as int]);
        paths.push(row);
        i += 1;
    }
    assert(rows(paths@) =~= wanted);
    paths_valid(&paths, plan.map.dimensions, t)
}

/// The node `p` comes before the node `q`, counting through the rows, within
/// each through the columns, and last through the timesteps.
pub open spec fn comes_first(p: Node, q: Node) -> bool {
    p.1 < q.1 || (p.1 == q.1 && (p.0 < q.0 || (p.0 == q.0 && p.2 < q.2)))
}

/// `m` is the first of the nodes of `s`.
pub open spec fn first_of(s: Seq<Node>, m: Node) -> bool {
    s.contains(m) && forall|k: int| 0 <= k < s.len() ==> !comes_first(#[trigger] s[k], m)
}

/// The first of some nodes, counting through the rows and within each
/// through the columns.
pub fn first_node(nodes: &Vec<Node>) -> (m: Node)
    requires
        nodes.len() > 0,
    ensures
        first_of(nodes@, m),
{
    let mut m = nodes[0];
    let mut k: usize = 1;
    while k < nodes.len()
        invariant
            1 <= k <= nodes.len(),
            nodes@.contains(m),
            forall|j: int| 0 <= j < k ==> !comes_first(#[trigger] nodes[j], m),
        decreases nodes.len() - k,
    {
        let p = nodes[k];
        if p.1 < m.1 || (p.1 == m.1 && (p.0 < m.0 || (p.0 == m.0 && p.2 < m.2))) {
            m = p;
        }
        k += 1;
    }
    m
}

/// Where the attacker goes next from `pos` at time `t`: along the route
/// where one was found; else to the first of the neighbours; else nowhere.
pub fn next_position(route: &Option<Vec<Node>>, neighbors: &Vec<Node>, pos: Node, t: usize) -> (next:
    Node)
    requires
        route matches Some(r) ==> r.len() >= 2,
    ensures
        match route {
            Some(r) => next == r[1],
            None => if neighbors.len() > 0 {
                first_of(neighbors@, next)
            } else {
                next == (pos.0, pos.1, t)
            },
        },
{
    match route {
        Some(r) => r[1],
        None => {
            if neighbors.len() > 0 {
                first_node(neighbors)
            } else {
                (pos.0, pos.1, t)
            }
        },
    }
}

/// From `pos` there is a way to the safe cell, on which it arrives later than
/// `pos` and before the time `bound`, and from there back to the attacker's
/// plan, before the attacker's horizon at time `now` and no later than at
/// time `bound`.
#[verifier::opaque]
pub open spec fn two_legs(
    g: Set<(Node, Node)>,
    plan: Scenario,
    a: int,
    pos: Node,
    safe: Coordinate,
    now: int,
    bound: int,
) -> bool {
    exists|u: int|
        pos.2 < u < bound && #[trigger] arrives(g, pos, safe, u) && leads_back(
            g,
            plan,
            a,
            (safe.x, safe.y, u as usize),
            now,
            bound,
        )
}

/// What the search for a known deviation does with what its two searches for
/// routes came up with.
pub enum Search {
    /// A deviation is found.
    Found,
    /// No deviation will be found.
    GaveUp,
    /// The search goes on with arrivals later than at this node.
    Later(Node),
}

/// What the search does with an arrival on the safe cell and with whether a
/// route leads back from it: without an arrival, or with one that is not
/// before `bound`, it gives up; with a way back it has found a deviation;
/// else it goes on with later arrivals.
pub open spec fn weighed(arrival: Option<Node>, way_back: bool, bound: int) -> Search {
    match arrival {
        None => Search::GaveUp,
        Some(n) => if n.2 >= bound {
            Search::GaveUp
        } else if way_back {
            Search::Found
        } else {
            Search::Later(n)
        },
    }
}

/// Decides how the search for a known deviation goes on, given the arrival
/// on the safe cell that was found, where one was, and whether a route leads
/// back from it.
pub fn weigh_legs(arrival: Option<Node>, way_back: bool, bound: usize) -> (next: Search)
    ensures
        next == weighed(arrival, way_back, bound as int),
{
    match arrival {
        None => Search::GaveUp,
        Some(n) => {
            if n.2 >= bound {
                Search::GaveUp
            } else if way_back {
                Search::Found
            } else {
                Search::Later(n)
            }
        },
    }
}

/// Searches a deviation that is known to pass unobserved: a route to the
/// safe cell, and from where it arrives a route back to the attacker's plan
/// no later than at time `bound`. Routes to the safe cell are tried by later
/// and later arrival, as long as they arrive before `bound`.
///
/// On a graph whose edges join near cells one timestep apart the arrivals
/// come earliest first, and the search succeeds exactly where there is such
/// a deviation. On any graph it succeeds only where there is one, and fails
/// only where it can give up: at once, where `pos` is not before `bound`;
/// else after an arrival from which no route leads back, or at `pos`, where
/// no route arrives any later or one arrives too late.
pub fn known_deviation(
    g: &TimeGraph,
    plan: &Scenario,
    attacker: usize,
    pos: Node,
    safe: Coordinate,
    now: usize,
    bound: usize,
) -> (found: bool)
    requires
        plan.wf(),
        attacker < plan.names.len(),
        now <= plan.makespan,
    ensures
        found ==> two_legs(g.edges(), *plan, attacker as int, pos, safe, now as int, bound as int),
        steps_in_time(g.edges()) && two_legs(
            g.edges(),
            *plan,
            attacker as int,
            pos,
            safe,
            now as int,
            bound as int,
        ) ==> found,
        !found ==> pos.2 >= bound || exists|u: int|
            #[trigger] gives_up(
                g.edges(),
                *plan,
                attacker as int,
                pos,
                safe,
                now as int,
                bound as int,
                u,
            ),
{
    let ghost edges = g.edges();
    let ghost a = attacker as int;
    let mut inter = pos;
    proof {
        reveal(two_legs);
    }
    while inter.2 < bound
        invariant
            plan.wf(),
            attacker < plan.names.len(),
            now <= plan.makespan,
            edges == g.edges(),
            a == attacker,
            pos.2 <= inter.2,
            inter == pos || {
                &&& inter.2 < bound
                &&& inter == (safe.x, safe.y, inter.2)
                &&& arrives(edges, pos, safe, inter.2 as int)
                &&& !leads_back(edges, *plan, a, inter, now as int, bound as int)
            },
            steps_in_time(edges) ==> forall|u: int|
                pos.2 < u <= inter.2 && #[trigger] arrives(edges, pos, safe, u) ==> !leads_back(
                    edges,
                    *plan,
                    a,
                    (safe.x, safe.y, u as usize),
                    now as int,
                    bound as int,
                ),
        decreases bound - inter.2,
    {
        let earlier = inter.2;
        let arrival = leg_out(g, plan, pos, safe, earlier);
        let way_back = match arrival {
            Some(n) => n.2 < bound && leg_back(g, plan, attacker, n, now, bound),
            None => false,
        };
        match weigh_legs(arrival, way_back, bound) {
            Search::Found => {
                proof {
                    reveal(two_legs);
                    let n = arrival->0;
                    assert(arrives(edges, pos, safe, n.2 as int));
                    assert(n == (safe.x, safe.y, n.2));
                }
                return true;
            },
            Search::GaveUp => {
                proof {
                    reveal(two_legs);
                    assert(gives_up(edges, *plan, a, pos, safe, now as int, bound as int, earlier as int));
                }
                return false;
            },
            Search::Later(n) => {
                assert(n == (safe.x, safe.y, n.2));
                inter = n;
            },
        }
    }
    proof {
        reveal(two_legs);
    }
    false
}

/// The node on the safe cell at which some route from `pos` arrives later
/// than at time `earlier`; none where no route arrives there any later. On a
/// graph whose edges join near cells one timestep apart it is the earliest
/// such arrival.
fn leg_out(g: &TimeGraph, plan: &Scenario, pos: Node, safe: Coordinate, earlier: usize) -> (arrival:
    Option<Node>)
    ensures
        match arrival {
            Some(n) => {
                &&& n.2 > earlier
                &&& cell_of(n) == safe
                &&& arrives(g.edges(), pos, safe, n.2 as int)
                &&& steps_in_time(g.edges()) ==> forall|v: int|
                    earlier < v < n.2 ==> !#[trigger] arrives(g.edges(), pos, safe, v)
            },
            None => forall|v: int| v > earlier ==> !#[trigger] arrives(g.edges(), pos, safe, v),
        },
{
    let goal = Goal::Reach { cell: safe, later_than: Some(earlier) };
    match astar_route(g, pos, plan, &goal) {
        Some(out) => {
            let n = out[out.len() - 1];
            assert(is_route(g.edges(), pos, out@) && out@.last() == n);
            proof {
                if steps_in_time(g.edges()) {
                    lemma_reach_admissible(g.edges(), *plan, safe, Some(earlier));
                    lemma_route_in_time(g.edges(), pos, out@);
                    assert forall|v: int| earlier < v < n.2 implies !#[trigger] arrives(
                        g.edges(),
                        pos,
                        safe,
                        v,
                    ) by {
                        if arrives(g.edges(), pos, safe, v) {
                            let other = choose|other: Seq<Node>|
                                #[trigger] is_route(g.edges(), pos, other) && cell_of(other.last())
                                    == safe && other.last().2 == v;
                            assert(goal.met(*plan, other.last()));
                            lemma_route_in_time(g.edges(), pos, other);
                        }
                    }
                }
            }
            Some(n)
        },
        None => {
            assert forall|v: int| v > earlier implies !#[trigger] arrives(g.edges(), pos, safe, v) by {
                if arrives(g.edges(), pos, safe, v) {
                    let out = choose|out: Seq<Node>|
                        #[trigger] is_route(g.edges(), pos, out) && cell_of(out.last()) == safe
                            && out.last().2 == v;
                    assert(goal.met(*plan, out.last()));
                }
            }
            None
        },
    }
}

/// Whether some route leads from `inter` back to the attacker's plan, before
/// the attacker's horizon at time `now` and no later than at time `bound`.
fn leg_back(g: &TimeGraph, plan: &Scenario, attacker: usize, inter: Node, now: usize, bound: usize) -> (b:
    bool)
    requires
        plan.wf(),
        attacker < plan.names.len(),
        now <= plan.makespan,
    ensures
        b == leads_back(g.edges(), *plan, attacker as int, inter, now as int, bound as int),
{
    let goal = Goal::Rejoin {
        agent: attacker,
        later_than: None,
        until: Some(bound),
        horizon: plan.horizons[attacker][now],
    };
    match astar_route(g, inter, plan, &goal) {
        Some(back) => {
            assert(is_route(g.edges(), inter, back@));
            true
        },
        None => false,
    }
}

/// Some route from `pos` ends on the cell `safe` at the time `u`.
pub open spec fn arrives(edges: Set<(Node, Node)>, pos: Node, safe: Coordinate, u: int) -> bool {
    exists|out: Seq<Node>|
        #[trigger] is_route(edges, pos, out) && cell_of(out.last()) == safe && out.last().2 == u
}

/// Some route leads from the node `n` back to the plan of the attacker `a`,
/// before the attacker's horizon at time `now` and no later than at time
/// `bound`.
pub open spec fn leads_back(
    edges: Set<(Node, Node)>,
    plan: Scenario,
    a: int,
    n: Node,
    now: int,
    bound: int,
) -> bool {
    exists|back: Seq<Node>|
        #[trigger] is_route(edges, n, back) && (Goal::Rejoin {
            agent: a as usize,
            later_than: None,
            until: Some(bound as usize),
            horizon: plan.horizons[a][now],
        }).met(plan, back.last())
}

/// The search for a known deviation can give up at the time `u`, which is
/// that of `pos` or that of an arrival on the safe cell before `bound` from
/// which no route leads back: no route arrives on the safe cell any later, or
/// one arrives there later and not before `bound`.
pub open spec fn gives_up(
    edges: Set<(Node, Node)>,
    plan: Scenario,
    a: int,
    pos: Node,
    safe: Coordinate,
    now: int,
    bound: int,
    u: int,
) -> bool {
    &&& pos.2 <= u < bound
    &&& u > pos.2 ==> arrives(edges, pos, safe, u) && !leads_back(
        edges,
        plan,
        a,
        (safe.x, safe.y, u as usize),
        now,
        bound,
    )
    &&& (forall|v: int| v > u ==> !#[trigger] arrives(edges, pos, safe, v)) || exists|v: int|
        v > u && v >= bound && #[trigger] arrives(edges, pos, safe, v)
}

/// The node `n` has been pruned at one of the timesteps up to `upto`.
pub open spec fn pruned_by(plan: Scenario, a: int, mitigation: bool, upto: int, n: Node) -> bool {
    exists|now: int| 0 <= now <= upto && #[trigger] pruned(plan, a, now, mitigation, n)
}

/// The node `n` is left in the graph after the prunings up to time `upto`.
pub open spec fn left(plan: Scenario, a: int, safe: Coordinate, mitigation: bool, upto: int, n: Node) -> bool {
    is_node(plan.map, safe, plan.makespan as int, n) && !pruned_by(plan, a, mitigation, upto, n)
}

/// The edges that are left in the graph after the prunings up to time
/// `upto`.
pub open spec fn edges_left(plan: Scenario, a: int, safe: Coordinate, mitigation: bool, upto: int) -> Set<
    (Node, Node),
> {
    Set::new(
        |e: (Node, Node)|
            is_edge(plan.map, safe, plan.makespan as int, e.0, e.1) && !pruned_by(
                plan,
                a,
                mitigation,
                upto,
                e.0,
            ) && !pruned_by(plan, a, mitigation, upto, e.1),
    )
}

/// The node of a timed position.
pub open spec fn node_of(p: TimedCoordinate) -> Node {
    (p.x, p.y, p.t)
}

/// The greatest distance between the attacker and its plan over the first
/// `n` timesteps.
pub open spec fn widest(deviation: Seq<TimedCoordinate>, nominal: Seq<Coordinate>, n: int) -> nat
    decreases n,
{
    if n <= 0 {
        0
    } else {
        let before = widest(deviation, nominal, n - 1);
        let here = deviation[n - 1].cell().dist(nominal[n - 1]);
        if here > before {
            here
        } else {
            before
        }
    }
}

/// At one of the first `n` timesteps the attacker stands on the safe cell.
#[verifier::opaque]
pub open spec fn stood_on(deviation: Seq<TimedCoordinate>, safe: Coordinate, n: int) -> bool {
    exists|u: int| 0 <= u < n && (#[trigger] deviation[u]).cell() == safe
}

/// At one of the first `n` timesteps the defenders notice the attacker: one
/// of them misses it where it expects it, or the attacker stands where, by
/// the announcements made so far, it cannot be.
#[verifier::opaque]
pub open spec fn noticed(
    plan: Scenario,
    a: int,
    safe: Coordinate,
    mitigation: bool,
    deviation: Seq<TimedCoordinate>,
    n: int,
) -> bool {
    exists|u: int|
        0 <= u < n && (missed(plan, a, u, (#[trigger] deviation[u]).cell()) || !left(
            plan,
            a,
            safe,
            mitigation,
            u,
            node_of(deviation[u]),
        ))
}

/// From position `p` at time `u` the attacker gets to position `q`: it has
/// stood on the safe cell or knows no deviation, and takes a step, on the
/// graph as it is pruned at time `u`, towards what it heads for then, given
/// whether it has stood on the safe cell yet.
#[verifier::opaque]
pub open spec fn follows(
    plan: Scenario,
    a: int,
    safe: Coordinate,
    mitigation: bool,
    p: TimedCoordinate,
    q: TimedCoordinate,
    u: int,
    dangerous: bool,
) -> bool {
    &&& dangerous || !deviation_known(
        edges_left(plan, a, safe, mitigation, u),
        plan,
        a,
        node_of(p),
        safe,
        u,
    )
    &&& steps_towards(
        edges_left(plan, a, safe, mitigation, u),
        plan,
        heading(plan, a, safe, u, dangerous),
        node_of(p),
        u,
        node_of(q),
    )
}

/// The first `n` positions start where the plan of the attacker `a` starts,
/// and each follows the one before.
#[verifier::opaque]
pub open spec fn linked(
    plan: Scenario,
    a: int,
    safe: Coordinate,
    mitigation: bool,
    deviation: Seq<TimedCoordinate>,
    n: int,
) -> bool {
    &&& n <= deviation.len()
    &&& n > 0 ==> deviation[0] == (TimedCoordinate {
        x: plan.paths[a][0].x,
        y: plan.paths[a][0].y,
        t: 0,
    })
    &&& forall|u: int|
        0 <= u < n - 1 ==> follows(
            plan,
            a,
            safe,
            mitigation,
            #[trigger] deviation[u],
            deviation[u + 1],
            u,
            stood_on(deviation, safe, u + 1),
        )
}

/// With the position of the attacker `a` at the time `u` the joint schedule
/// up to that timestep is invalid.
pub open spec fn collides(plan: Scenario, a: int, deviation: Seq<TimedCoordinate>, u: int) -> bool {
    !valid_until(deviated(plan, a, deviation.take(u + 1), u), plan.map.dimensions, u)
}

/// With one of the first `n` positions of the attacker `a` the joint
/// schedule up to that timestep is invalid.
#[verifier::opaque]
pub open spec fn collided(plan: Scenario, a: int, deviation: Seq<TimedCoordinate>, n: int) -> bool {
    exists|u: int| 0 <= u < n && #[trigger] collides(plan, a, deviation, u)
}

/// How a bold attempt ends.
#[derive(Debug, Eq, Copy, Clone, PartialEq, Structural)]
pub enum Ending {
    /// The attacker found a way to the safe cell and back that passes every
    /// observation it knows of.
    KnownDeviation,
    /// The attacker was followed up to the makespan.
    Completed,
}

/// What a bold attempt came to, with the positions that the attacker took.
pub struct BoldRun {
    pub dangerous: bool,
    pub detected: bool,
    pub max_deviated_dist: usize,
    pub deviation: Vec<TimedCoordinate>,
    pub ending: Ending,
}

impl BoldRun {
    /// The run is one that the bold attacker `a` can make for the safe cell:
    /// it starts where the plan starts, goes on step by step towards what the
    /// attacker heads for as long as the attacker knows no deviation, ends on
    /// a known deviation exactly where the attacker has not stood on the safe
    /// cell and knows one, and its verdict is the one that its positions give:
    /// it is detected where one of them makes the joint schedule invalid or,
    /// under mitigation, is noticed by the defenders.
    pub open spec fn describes(self, plan: Scenario, a: int, safe: Coordinate, mitigation: bool) -> bool {
        let dev = self.deviation@;
        &&& 1 <= dev.len() <= plan.makespan + 1
        &&& linked(plan, a, safe, mitigation, dev, dev.len() as int)
        &&& self.ending is Completed ==> dev.len() == plan.makespan + 1 && (stood_on(
            dev,
            safe,
            dev.len() as int,
        ) || !deviation_known(
            edges_left(plan, a, safe, mitigation, dev.len() - 1),
            plan,
            a,
            node_of(dev.last()),
            safe,
            dev.len() - 1,
        ))
        &&& self.ending is KnownDeviation ==> !stood_on(dev, safe, dev.len() as int)
            && deviation_known(
            edges_left(plan, a, safe, mitigation, dev.len() - 1),
            plan,
            a,
            node_of(dev.last()),
            safe,
            dev.len() - 1,
        )
        &&& self.max_deviated_dist == widest(dev, plan.paths[a]@, dev.len() as int)
        &&& self.dangerous == (self.ending is KnownDeviation || stood_on(dev, safe, dev.len() as int))
        &&& self.detected == (collided(plan, a, dev, dev.len() as int) || (mitigation && noticed(
            plan,
            a,
            safe,
            mitigation,
            dev,
            dev.len() as int,
        )))
    }
}

/// Pruning at time `now` takes from what the earlier prunings left just the
/// nodes that are pruned at `now`.
proof fn lemma_pruned_by_step(plan: Scenario, a: int, mitigation: bool, now: int)
    requires
        now >= 0,
    ensures
        forall|n: Node|
            #[trigger] pruned_by(plan, a, mitigation, now, n) <==> pruned_by(
                plan,
                a,
                mitigation,
                now - 1,
                n,
            ) || pruned(plan, a, now, mitigation, n),
{
    assert forall|n: Node|
        #[trigger] pruned_by(plan, a, mitigation, now, n) <==> pruned_by(plan, a, mitigation, now - 1, n)
            || pruned(plan, a, now, mitigation, n) by {
        if pruned_by(plan, a, mitigation, now, n) {
            let w = choose|w: int| 0 <= w <= now && #[trigger] pruned(plan, a, w, mitigation, n);
            if w < now {
                assert(pruned_by(plan, a, mitigation, now - 1, n));
            }
        }
        if pruned_by(plan, a, mitigation, now - 1, n) {
            let w = choose|w: int| 0 <= w <= now - 1 && #[trigger] pruned(plan, a, w, mitigation, n);
            assert(pruned(plan, a, w, mitigation, n));
        }
    }
}

/// The greatest distance over the first `n` timesteps depends on the first
/// `n` positions alone.
proof fn lemma_widest_keeps(
    one: Seq<TimedCoordinate>,
    other: Seq<TimedCoordinate>,
    nominal: Seq<Coordinate>,
    n: int,
)
    requires
        n <= one.len(),
        n <= other.len(),
        forall|u: int| 0 <= u < n ==> one[u] == other[u],
    ensures
        widest(one, nominal, n) == widest(other, nominal, n),
    decreases n,
{
    if n > 0 {
        lemma_widest_keeps(one, other, nominal, n - 1);
    }
}

/// Whether the attacker has stood on the safe cell within the first `n`
/// timesteps depends on the first `n` positions alone.
proof fn lemma_stood_on_keeps(
    one: Seq<TimedCoordinate>,
    other: Seq<TimedCoordinate>,
    safe: Coordinate,
    n: int,
)
    requires
        n <= one.len(),
        n <= other.len(),
        forall|u: int| 0 <= u < n ==> one[u] == other[u],
    ensures
        stood_on(one, safe, n) == stood_on(other, safe, n),
{
    reveal(stood_on);
    if stood_on(one, safe, n) {
        let u = choose|u: int| 0 <= u < n && (#[trigger] one[u]).cell() == safe;
        assert(other[u].cell() == safe);
    }
    if stood_on(other, safe, n) {
        let u = choose|u: int| 0 <= u < n && (#[trigger] other[u]).cell() == safe;
        assert(one[u].cell() == safe);
    }
}

/// One more position, which follows the last, extends the positions that
/// are linked.
proof fn lemma_linked_one_more(
    plan: Scenario,
    a: int,
    safe: Coordinate,
    mitigation: bool,
    earlier: Seq<TimedCoordinate>,
    p: TimedCoordinate,
)
    requires
        linked(plan, a, safe, mitigation, earlier, earlier.len() as int),
        earlier.len() == 0 ==> p == (TimedCoordinate {
            x: plan.paths[a][0].x,
            y: plan.paths[a][0].y,
            t: 0,
        }),
        earlier.len() > 0 ==> follows(
            plan,
            a,
            safe,
            mitigation,
            earlier.last(),
            p,
            earlier.len() - 1,
            stood_on(earlier, safe, earlier.len() as int),
        ),
    ensures
        linked(plan, a, safe, mitigation, earlier.push(p), earlier.len() as int + 1),
{
    reveal(linked);
    let later = earlier.push(p);
    let t = earlier.len() as int;
    assert forall|u: int| 0 <= u < t implies follows(
        plan,
        a,
        safe,
        mitigation,
        #[trigger] later[u],
        later[u + 1],
        u,
        stood_on(later, safe, u + 1),
    ) by {
        lemma_stood_on_keeps(earlier, later, safe, u + 1);
        if u < t - 1 {
            assert(follows(
                plan,
                a,
                safe,
                mitigation,
                earlier[u],
                earlier[u + 1],
                u,
                stood_on(earlier, safe, u + 1),
            ));
            assert(later[u] == earlier[u] && later[u + 1] == earlier[u + 1]);
        } else {
            assert(later[u] == earlier.last() && later[u + 1] == p);
        }
    }
}

/// One more position leaves the collisions of the positions before it.
proof fn lemma_collided_one_more(plan: Scenario, a: int, earlier: Seq<TimedCoordinate>, p: TimedCoordinate)
    ensures
        collided(plan, a, earlier.push(p), earlier.len() as int) == collided(
            plan,
            a,
            earlier,
            earlier.len() as int,
        ),
{
    reveal(collided);
    let later = earlier.push(p);
    assert forall|u: int| 0 <= u < earlier.len() implies collides(plan, a, later, u) == collides(
        plan,
        a,
        earlier,
        u,
    ) by {
        assert(later.take(u + 1) =~= earlier.take(u + 1));
    }
    if collided(plan, a, earlier, earlier.len() as int) {
        let u = choose|u: int| 0 <= u < earlier.len() && #[trigger] collides(plan, a, earlier, u);
        assert(collides(plan, a, later, u));
    }
    if collided(plan, a, later, earlier.len() as int) {
        let u = choose|u: int| 0 <= u < earlier.len() && #[trigger] collides(plan, a, later, u);
        assert(collides(plan, a, earlier, u));
    }
}

/// One more position leaves what the defenders noticed of the positions
/// before it.
proof fn lemma_noticed_one_more(
    plan: Scenario,
    a: int,
    safe: Coordinate,
    mitigation: bool,
    earlier: Seq<TimedCoordinate>,
    p: TimedCoordinate,
)
    ensures
        noticed(plan, a, safe, mitigation, earlier.push(p), earlier.len() as int) == noticed(
            plan,
            a,
            safe,
            mitigation,
            earlier,
            earlier.len() as int,
        ),
{
    reveal(noticed);
    let later = earlier.push(p);
    let t = earlier.len() as int;
    if noticed(plan, a, safe, mitigation, earlier, t) {
        let u = choose|u: int|
            0 <= u < t && (missed(plan, a, u, (#[trigger] earlier[u]).cell()) || !left(
                plan,
                a,
                safe,
                mitigation,
                u,
                node_of(earlier[u]),
            ));
        assert(later[u] == earlier[u]);
    }
    if noticed(plan, a, safe, mitigation, later, t) {
        let u = choose|u: int|
            0 <= u < t && (missed(plan, a, u, (#[trigger] later[u]).cell()) || !left(
                plan,
                a,
                safe,
                mitigation,
                u,
                node_of(later[u]),
            ));
        assert(later[u] == earlier[u]);
    }
}

/// One more position leaves what holds of the positions before it.
proof fn lemma_one_more(
    plan: Scenario,
    a: int,
    safe: Coordinate,
    mitigation: bool,
    earlier: Seq<TimedCoordinate>,
    p: TimedCoordinate,
)
    requires
        linked(plan, a, safe, mitigation, earlier, earlier.len() as int),
        earlier.len() == 0 ==> p == (TimedCoordinate {
            x: plan.paths[a][0].x,
            y: plan.paths[a][0].y,
            t: 0,
        }),
        earlier.len() > 0 ==> follows(
            plan,
            a,
            safe,
            mitigation,
            earlier.last(),
            p,
            earlier.len() - 1,
            stood_on(earlier, safe, earlier.len() as int),
        ),
    ensures
        linked(plan, a, safe, mitigation, earlier.push(p), earlier.len() as int + 1),
        collided(plan, a, earlier.push(p), earlier.len() as int) == collided(
            plan,
            a,
            earlier,
            earlier.len() as int,
        ),
        widest(earlier.push(p), plan.paths[a]@, earlier.len() as int) == widest(
            earlier,
            plan.paths[a]@,
            earlier.len() as int,
        ),
        stood_on(earlier.push(p), safe, earlier.len() as int) == stood_on(
            earlier,
            safe,
            earlier.len() as int,
        ),
        noticed(plan, a, safe, mitigation, earlier.push(p), earlier.len() as int) == noticed(
            plan,
            a,
            safe,
            mitigation,
            earlier,
            earlier.len() as int,
        ),
{
    lemma_linked_one_more(plan, a, safe, mitigation, earlier, p);
    lemma_collided_one_more(plan, a, earlier, p);
    lemma_noticed_one_more(plan, a, safe, mitigation, earlier, p);
    lemma_widest_keeps(earlier, earlier.push(p), plan.paths[a]@, earlier.len() as int);
    lemma_stood_on_keeps(earlier, earlier.push(p), safe, earlier.len() as int);
}

/// What the latest position adds to the verdict on the positions before it.
proof fn lemma_judge_latest(
    plan: Scenario,
    a: int,
    safe: Coordinate,
    mitigation: bool,
    dev: Seq<TimedCoordinate>,
)
    requires
        dev.len() > 0,
    ensures
        stood_on(dev, safe, dev.len() as int) == (stood_on(dev, safe, dev.len() - 1)
            || dev.last().cell() == safe),
        noticed(plan, a, safe, mitigation, dev, dev.len() as int) == (noticed(
            plan,
            a,
            safe,
            mitigation,
            dev,
            dev.len() - 1,
        ) || missed(plan, a, dev.len() - 1, dev.last().cell()) || !left(
            plan,
            a,
            safe,
            mitigation,
            dev.len() - 1,
            node_of(dev.last()),
        )),
{
    reveal(stood_on);
    reveal(noticed);
    let t = dev.len() - 1;
    if stood_on(dev, safe, t + 1) {
        let u = choose|u: int| 0 <= u < t + 1 && (#[trigger] dev[u]).cell() == safe;
        if u < t {
            assert(stood_on(dev, safe, t));
        }
    }
    if stood_on(dev, safe, t) {
        let u = choose|u: int| 0 <= u < t && (#[trigger] dev[u]).cell() == safe;
        assert(dev[u].cell() == safe);
    }
    if dev.last().cell() == safe {
        assert(dev[t].cell() == safe);
    }
    if noticed(plan, a, safe, mitigation, dev, t + 1) {
        let u = choose|u: int|
            0 <= u < t + 1 && (missed(plan, a, u, (#[trigger] dev[u]).cell()) || !left(
                plan,
                a,
                safe,
                mitigation,
                u,
                node_of(dev[u]),
            ));
        if u < t {
            assert(noticed(plan, a, safe, mitigation, dev, t));
        }
    }
    if noticed(plan, a, safe, mitigation, dev, t) {
        let u = choose|u: int|
            0 <= u < t && (missed(plan, a, u, (#[trigger] dev[u]).cell()) || !left(
                plan,
                a,
                safe,
                mitigation,
                u,
                node_of(dev[u]),
            ));
        assert(missed(plan, a, u, dev[u].cell()) || !left(plan, a, safe, mitigation, u, node_of(dev[u])));
    }
    if missed(plan, a, t, dev.last().cell()) || !left(plan, a, safe, mitigation, t, node_of(dev.last())) {
        assert(missed(plan, a, t, dev[t].cell()) || !left(plan, a, safe, mitigation, t, node_of(dev[t])));
    }
}

/// What the latest position adds to the collisions of the positions before
/// it.
proof fn lemma_collided_latest(plan: Scenario, a: int, dev: Seq<TimedCoordinate>)
    requires
        dev.len() > 0,
    ensures
        collided(plan, a, dev, dev.len() as int) == (collided(plan, a, dev, dev.len() - 1)
            || !valid_until(deviated(plan, a, dev, dev.len() - 1), plan.map.dimensions, dev.len() - 1)),
{
    reveal(collided);
    let t = dev.len() - 1;
    assert(dev.take(t + 1) =~= dev);
    if collided(plan, a, dev, t + 1) {
        let u = choose|u: int| 0 <= u < t + 1 && #[trigger] collides(plan, a, dev, u);
        if u < t {
            assert(collided(plan, a, dev, t));
        }
    }
    if collided(plan, a, dev, t) {
        let u = choose|u: int| 0 <= u < t && #[trigger] collides(plan, a, dev, u);
        assert(collides(plan, a, dev, u));
    }
    if !valid_until(deviated(plan, a, dev, t), plan.map.dimensions, t) {
        assert(collides(plan, a, dev, t));
    }
}

/// Before the first step nothing has happened yet.
proof fn lemma_nothing_yet(plan: Scenario, a: int, safe: Coordinate, mitigation: bool)
    ensures
        linked(plan, a, safe, mitigation, Seq::<TimedCoordinate>::empty(), 0),
        !collided(plan, a, Seq::<TimedCoordinate>::empty(), 0),
        !stood_on(Seq::<TimedCoordinate>::empty(), safe, 0),
        !noticed(plan, a, safe, mitigation, Seq::<TimedCoordinate>::empty(), 0),
{
    reveal(linked);
    reveal(collided);
    reveal(stood_on);
    reveal(noticed);
}

/// Prunes, at time `now`, the graph that the earlier prunings have left.
fn prune_next(g: &mut TimeGraph, plan: &Scenario, attacker: usize, safe: Coordinate, now: usize, mitigation: bool)
    requires
        plan.wf(),
        attacker < plan.names.len(),
        now <= plan.makespan,
        old(g).nodes() == Set::new(
            |n: Node| left(*plan, attacker as int, safe, mitigation, now - 1, n),
        ),
        old(g).edges() == edges_left(*plan, attacker as int, safe, mitigation, now - 1),
    ensures
        final(g).nodes() == Set::new(
            |n: Node| left(*plan, attacker as int, safe, mitigation, now as int, n),
        ),
        final(g).edges() == edges_left(*plan, attacker as int, safe, mitigation, now as int),
{
    prune_graph(g, plan, attacker, now, mitigation);
    proof {
        lemma_pruned_by_step(*plan, attacker as int, mitigation, now as int);
        assert(g.nodes() =~= Set::new(
            |n: Node| left(*plan, attacker as int, safe, mitigation, now as int, n),
        ));
        assert(g.edges() =~= edges_left(*plan, attacker as int, safe, mitigation, now as int));
    }
}

/// The graph before any pruning.
fn unpruned(plan: &Scenario, attacker: usize, safe: Coordinate, mitigation: bool) -> (g: TimeGraph)
    requires
        plan.wf(),
    ensures
        g.nodes() == Set::new(|n: Node| left(*plan, attacker as int, safe, mitigation, -1, n)),
        g.edges() == edges_left(*plan, attacker as int, safe, mitigation, -1),
{
    let g = build_graph(&plan.map, plan.makespan, &safe);
    assert(g.nodes() =~= Set::new(|n: Node| left(*plan, attacker as int, safe, mitigation, -1, n)));
    assert(g.edges() =~= edges_left(*plan, attacker as int, safe, mitigation, -1));
    g
}

/// Where the attacker heads at time `now`, unless it ends the attempt.
pub enum Move {
    /// To this node, at the next timestep.
    To(Node),
    /// Nowhere: a deviation is known that passes every known observation.
    Done,
}

/// An observation is known to come: at one of the timesteps after `now` that
/// the attacker has disclosed at time `now`, a defender that has disclosed
/// it too stands next to the attacker's planned position.
pub open spec fn observation_ahead(plan: Scenario, a: int, now: int) -> bool {
    exists|t: int| now < t < own_limit(plan, a, now) && #[trigger] watched(plan, a, now, t)
}

/// What an attacker that goes on heads for at time `now`: its plan, where it
/// has been on the safe cell or an observation is known to come; the safe
/// cell otherwise.
pub open spec fn heading(plan: Scenario, a: int, safe: Coordinate, now: int, dangerous: bool) -> Goal {
    if dangerous || observation_ahead(plan, a, now) {
        Goal::Rejoin {
            agent: a as usize,
            later_than: Some(now as usize),
            until: None,
            horizon: plan.horizons[a][now],
        }
    } else {
        Goal::Reach { cell: safe, later_than: None }
    }
}

/// `next` is the first of the nodes that the edges lead to from `pos`.
pub open spec fn first_onward(edges: Set<(Node, Node)>, pos: Node, next: Node) -> bool {
    edges.contains((pos, next)) && forall|m: Node|
        #[trigger] edges.contains((pos, m)) ==> !comes_first(m, next)
}

/// `next` is a step towards the goal from `pos` at time `now`: the first
/// step of a route to a node that meets the goal; where there is no such
/// route, the first of the nodes that the edges lead to; and where there is
/// none, the cell of `pos` once more, with the timestep `now`.
#[verifier::opaque]
pub open spec fn steps_towards(
    edges: Set<(Node, Node)>,
    plan: Scenario,
    goal: Goal,
    pos: Node,
    now: int,
    next: Node,
) -> bool {
    if exists|route: Seq<Node>| #[trigger] is_route(edges, pos, route) && goal.met(plan, route.last()) {
        exists|route: Seq<Node>|
            #[trigger] is_route(edges, pos, route) && goal.met(plan, route.last()) && route.len() >= 2
                && next == route[1] && (admissible(edges, plan, goal) ==> shortest(
                edges,
                plan,
                goal,
                pos,
                route,
            ))
    } else if exists|m: Node| #[trigger] edges.contains((pos, m)) {
        first_onward(edges, pos, next)
    } else {
        next == (pos.0, pos.1, now as usize)
    }
}

/// `t` is the time of the next known observation: the first timestep after
/// `now`, among those that the attacker has disclosed at time `now`, at which
/// it is watched.
pub open spec fn next_watch(plan: Scenario, a: int, now: int, t: int) -> bool {
    &&& now < t < own_limit(plan, a, now)
    &&& watched(plan, a, now, t)
    &&& forall|u: int| now < u < t ==> !#[trigger] watched(plan, a, now, u)
}

/// `b` is the least horizon that any agent has announced at time `now`.
pub open spec fn least_horizon(plan: Scenario, now: int, b: int) -> bool {
    &&& forall|i: int| 0 <= i < plan.names.len() ==> b <= (#[trigger] plan.horizons[i])[now]
    &&& exists|i: int| 0 <= i < plan.names.len() && b == (#[trigger] plan.horizons[i])[now]
}

/// The attacker knows, at time `now`, a deviation from `pos` that passes
/// every observation it knows of. Where an observation is known to come,
/// every agent has disclosed its path up to it, and there is a way to the
/// safe cell and back in time for it; where none is known, there is such a
/// way within what every agent has disclosed.
pub open spec fn deviation_known(
    edges: Set<(Node, Node)>,
    plan: Scenario,
    a: int,
    pos: Node,
    safe: Coordinate,
    now: int,
) -> bool {
    if observation_ahead(plan, a, now) {
        exists|t: int|
            #[trigger] next_watch(plan, a, now, t) && all_disclose(plan, now, t) && two_legs(
                edges,
                plan,
                a,
                pos,
                safe,
                now,
                t,
            )
    } else {
        exists|b: int|
            #[trigger] least_horizon(plan, now, b) && two_legs(edges, plan, a, pos, safe, now, b)
    }
}

/// Plans the attacker's next move from `pos` at time `now`, on the graph as
/// it is pruned by then.
///
/// An attacker that has stood on the safe cell heads back to its plan.
/// Another one first looks for a known deviation: where an observation is
/// known to come, and every agent has disclosed its path up to it, for one
/// that is back in time for the observation, and then heads for its plan;
/// where none is known, for one within what every agent has disclosed, and
/// then heads for the safe cell. It takes the first step of a route to what
/// it heads for; without a route, the first of its neighbours; without a
/// neighbour it stays.
pub fn plan_move(
    g: &TimeGraph,
    plan: &Scenario,
    attacker: usize,
    pos: Node,
    safe: Coordinate,
    now: usize,
    dangerous: bool,
) -> (chosen: Move)
    requires
        plan.wf(),
        attacker < plan.names.len(),
        now <= plan.makespan,
        pos.2 <= now,
        !dangerous ==> cell_of(pos) != safe,
    ensures
        match chosen {
            Move::To(next) => steps_towards(
                g.edges(),
                *plan,
                heading(*plan, attacker as int, safe, now as int, dangerous),
                pos,
                now as int,
                next,
            ),
            Move::Done => !dangerous && deviation_known(
                g.edges(),
                *plan,
                attacker as int,
                pos,
                safe,
                now as int,
            ),
        },
        steps_in_time(g.edges()) && !dangerous && deviation_known(
            g.edges(),
            *plan,
            attacker as int,
            pos,
            safe,
            now as int,
        ) ==> chosen is Done,
{
    let to_plan = Goal::Rejoin {
        agent: attacker,
        later_than: Some(now),
        until: None,
        horizon: plan.horizons[attacker][now],
    };
    let goal = if dangerous {
        to_plan
    } else {
        match next_observed(plan, attacker, now) {
            Some(seen_at) => {
                if full_information(plan, now, seen_at) && known_deviation(
                    g,
                    plan,
                    attacker,
                    pos,
                    safe,
                    now,
                    seen_at,
                ) {
                    assert(next_watch(*plan, attacker as int, now as int, seen_at as int));
                    return Move::Done;
                }
                proof {
                    assert(watched(*plan, attacker as int, now as int, seen_at as int));
                    assert(next_watch(*plan, attacker as int, now as int, seen_at as int));
                    if steps_in_time(g.edges()) && deviation_known(
                        g.edges(),
                        *plan,
                        attacker as int,
                        pos,
                        safe,
                        now as int,
                    ) {
                        let t = choose|t: int|
                            #[trigger] next_watch(*plan, attacker as int, now as int, t)
                                && all_disclose(*plan, now as int, t) && two_legs(
                                g.edges(),
                                *plan,
                                attacker as int,
                                pos,
                                safe,
                                now as int,
                                t,
                            );
                        if t < seen_at {
                            assert(!watched(*plan, attacker as int, now as int, t));
                        } else if seen_at < t {
                            assert(!watched(*plan, attacker as int, now as int, seen_at as int));
                        }
                        assert(false);
                    }
                }
                to_plan
            },
            None => {
                let bound = known_horizon(plan, now);
                assert(least_horizon(*plan, now as int, bound as int));
                assert(!observation_ahead(*plan, attacker as int, now as int));
                if known_deviation(g, plan, attacker, pos, safe, now, bound) {
                    return Move::Done;
                }
                proof {
                    if steps_in_time(g.edges()) && deviation_known(
                        g.edges(),
                        *plan,
                        attacker as int,
                        pos,
                        safe,
                        now as int,
                    ) {
                        let b = choose|b: int|
                            #[trigger] least_horizon(*plan, now as int, b) && two_legs(
                                g.edges(),
                                *plan,
                                attacker as int,
                                pos,
                                safe,
                                now as int,
                                b,
                            );
                        lemma_least_horizon(*plan, now as int, b, bound as int);
                        assert(false);
                    }
                }
                Goal::Reach { cell: safe, later_than: None }
            },
        }
    };
    assert(goal == heading(*plan, attacker as int, safe, now as int, dangerous));
    Move::To(step_towards(g, plan, &goal, pos, now))
}

/// The least horizon at a time is unique.
proof fn lemma_least_horizon(plan: Scenario, now: int, b: int, c: int)
    requires
        least_horizon(plan, now, b),
        least_horizon(plan, now, c),
    ensures
        b == c,
{
    let i = choose|i: int| 0 <= i < plan.names.len() && b == (#[trigger] plan.horizons[i])[now];
    let j = choose|j: int| 0 <= j < plan.names.len() && c == (#[trigger] plan.horizons[j])[now];
    assert(b <= plan.horizons[j][now]);
    assert(c <= plan.horizons[i][now]);
}

/// Takes a step towards the goal from `pos` at time `now`.
pub fn step_towards(g: &TimeGraph, plan: &Scenario, goal: &Goal, pos: Node, now: usize) -> (next: Node)
    requires
        !goal.met(*plan, pos),
    ensures
        steps_towards(g.edges(), *plan, *goal, pos, now as int, next),
{
    let route = astar_route(g, pos, plan, goal);
    let neighbors = g.neighbors(pos);
    proof {
        reveal(steps_towards);
        if route is Some {
            let r = route->0;
            assert(is_route(g.edges(), pos, r@));
            assert(goal.met(*plan, r@.last()));
            assert(r@.last() != pos);
        }
        if neighbors.len() > 0 {
            assert(neighbors@.contains(neighbors[0]));
            assert forall|m: Node| first_of(neighbors@, m) implies first_onward(g.edges(), pos, m) by {
                assert(neighbors@.contains(m));
                assert forall|w: Node| #[trigger] g.edges().contains((pos, w)) implies !comes_first(
                    w,
                    m,
                ) by {
                    assert(neighbors@.contains(w));
                    let k = choose|k: int| 0 <= k < neighbors.len() && neighbors[k] == w;
                    assert(!comes_first(neighbors[k], m));
                }
            }
        } else {
            assert forall|m: Node| !#[trigger] g.edges().contains((pos, m)) by {
                if g.edges().contains((pos, m)) {
                    assert(neighbors@.contains(m));
                }
            }
        }
    }
    next_position(&route, &neighbors, pos, now)
}

/// A step towards a goal goes along an edge, or stays.
proof fn lemma_step_stays_on_graph(
    edges: Set<(Node, Node)>,
    plan: Scenario,
    goal: Goal,
    pos: Node,
    now: int,
    next: Node,
)
    requires
        steps_towards(edges, plan, goal, pos, now, next),
    ensures
        edges.contains((pos, next)) || next == (pos.0, pos.1, now as usize),
{
    reveal(steps_towards);
    if exists|route: Seq<Node>| #[trigger] is_route(edges, pos, route) && goal.met(plan, route.last()) {
        let route = choose|route: Seq<Node>|
            #[trigger] is_route(edges, pos, route) && goal.met(plan, route.last()) && route.len() >= 2
                && next == route[1];
        assert(edges.contains(hop(route, 0)));
    }
}

/// A step towards what the attacker heads for follows its position, and is
/// a move of the time-expanded graph or leaves the attacker on its cell.
proof fn lemma_follows(
    plan: Scenario,
    a: int,
    safe: Coordinate,
    mitigation: bool,
    p: TimedCoordinate,
    q: TimedCoordinate,
    u: int,
    dangerous: bool,
)
    requires
        0 <= u <= usize::MAX,
        dangerous || !deviation_known(
            edges_left(plan, a, safe, mitigation, u),
            plan,
            a,
            node_of(p),
            safe,
            u,
        ),
        steps_towards(
            edges_left(plan, a, safe, mitigation, u),
            plan,
            heading(plan, a, safe, u, dangerous),
            node_of(p),
            u,
            node_of(q),
        ),
    ensures
        follows(plan, a, safe, mitigation, p, q, u, dangerous),
        is_edge(plan.map, safe, plan.makespan as int, node_of(p), node_of(q)) || (q.cell() == p.cell()
            && q.t == u),
{
    reveal(follows);
    lemma_step_stays_on_graph(
        edges_left(plan, a, safe, mitigation, u),
        plan,
        heading(plan, a, safe, u, dangerous),
        node_of(p),
        u,
        node_of(q),
    );
}

/// An attacker that has gone on had stood on the safe cell or knew no
/// deviation.
proof fn lemma_went_on(
    plan: Scenario,
    a: int,
    safe: Coordinate,
    mitigation: bool,
    p: TimedCoordinate,
    q: TimedCoordinate,
    u: int,
    dangerous: bool,
)
    requires
        follows(plan, a, safe, mitigation, p, q, u, dangerous),
    ensures
        dangerous || !deviation_known(
            edges_left(plan, a, safe, mitigation, u),
            plan,
            a,
            node_of(p),
            safe,
            u,
        ),
{
    reveal(follows);
}

/// What the prunings leave of the edges joins near cells one timestep apart.
proof fn lemma_edges_left_in_time(plan: Scenario, a: int, safe: Coordinate, mitigation: bool, upto: int)
    ensures
        steps_in_time(edges_left(plan, a, safe, mitigation, upto)),
{
}

/// Follows the bold attacker through the timesteps up to the makespan.
///
/// At each timestep the attacker's position joins its deviation. Where that
/// makes the joint schedule invalid, the attempt is detected. The graph is
/// pruned by what the defenders have announced, the defenders' observations
/// are held against the position, and the attacker plans its next move;
/// where it knows a deviation that passes every known observation, the
/// attempt ends, dangerous.
#[verifier::rlimit(40)]
pub fn simulate(plan: &Scenario, attacker: usize, safe: Coordinate, mitigation: bool) -> (run: BoldRun)
    requires
        plan.wf(),
        attacker < plan.names.len(),
    ensures
        run.describes(*plan, attacker as int, safe, mitigation),
{
    let ghost a = attacker as int;
    let makespan = plan.makespan;
    let mut g = unpruned(plan, attacker, safe, mitigation);
    let start = plan.paths[attacker][0];
    let mut pos: Node = (start.x, start.y, 0);
    let mut deviation: Vec<TimedCoordinate> = Vec::new();
    let mut dangerous = false;
    let mut detected = false;
    let mut max_deviated_dist: usize = 0;
    let mut t: usize = 0;
    proof {
        lemma_nothing_yet(*plan, a, safe, mitigation);
        assert(deviation@ =~= Seq::<TimedCoordinate>::empty());
    }
    while t <= makespan
        invariant
            plan.wf(),
            a == attacker,
            attacker < plan.names.len(),
            makespan == plan.makespan,
            t <= makespan + 1,
            deviation.len() == t,
            pos.2 <= t,
            g.nodes() == Set::new(|n: Node| left(*plan, a, safe, mitigation, t - 1, n)),
            g.edges() == edges_left(*plan, a, safe, mitigation, t - 1),
            t == 0 ==> pos == (plan.paths[a][0].x, plan.paths[a][0].y, 0usize),
            t > 0 ==> follows(
                *plan,
                a,
                safe,
                mitigation,
                deviation@.last(),
                TimedCoordinate { x: pos.0, y: pos.1, t: pos.2 },
                t - 1,
                dangerous,
            ),
            linked(*plan, a, safe, mitigation, deviation@, t as int),
            max_deviated_dist == widest(deviation@, plan.paths[a]@, t as int),
            dangerous == stood_on(deviation@, safe, t as int),
            detected == (collided(*plan, a, deviation@, t as int) || (mitigation && noticed(
                *plan,
                a,
                safe,
                mitigation,
                deviation@,
                t as int,
            ))),
        decreases makespan + 1 - t,
    {
        let here = Coordinate { x: pos.0, y: pos.1 };
        let latest = TimedCoordinate { x: pos.0, y: pos.1, t: pos.2 };
        proof {
            lemma_one_more(*plan, a, safe, mitigation, deviation@, latest);
        }
        deviation.push(latest);
        assert(deviation@.last() == latest);
        assert(node_of(latest) == pos && latest.cell() == here);
        if !deviation_valid(plan, attacker, &deviation, t) {
            detected = true;
        }
        proof {
            lemma_collided_latest(*plan, a, deviation@);
        }
        let off = here.manh_dist(&plan.paths[attacker][t]);
        if off > max_deviated_dist {
            max_deviated_dist = off;
        }
        assert(max_deviated_dist == widest(deviation@, plan.paths[a]@, t + 1));
        prune_next(&mut g, plan, attacker, safe, t, mitigation);
        if mitigation {
            if !g.contains_node(pos) {
                detected = true;
            }
            if missed_observation(plan, attacker, t, here) {
                detected = true;
            }
        }
        if here == safe {
            dangerous = true;
        }
        proof {
            lemma_judge_latest(*plan, a, safe, mitigation, deviation@);
        }
        proof {
            lemma_edges_left_in_time(*plan, a, safe, mitigation, t as int);
        }
        let chosen = plan_move(&g, plan, attacker, pos, safe, t, dangerous);
        proof {
            if let Move::To(next) = chosen {
                lemma_follows(
                    *plan,
                    a,
                    safe,
                    mitigation,
                    latest,
                    TimedCoordinate { x: next.0, y: next.1, t: next.2 },
                    t as int,
                    dangerous,
                );
            }
        }
        match chosen {
            Move::Done => {
                return BoldRun {
                    dangerous: true,
                    detected,
                    max_deviated_dist,
                    deviation,
                    ending: Ending::KnownDeviation,
                };
            },
            Move::To(next) => {
                pos = next;
            },
        }
        t += 1;
    }
    proof {
        lemma_went_on(
            *plan,
            a,
            safe,
            mitigation,
            deviation@.last(),
            TimedCoordinate { x: pos.0, y: pos.1, t: pos.2 },
            t - 1,
            dangerous,
        );
    }
    BoldRun { dangerous, detected, max_deviated_dist, deviation, ending: Ending::Completed }
}

} // verus!
