//! Route search on the time-expanded graph.

use crate::graph::{cell_of, Node, TimeGraph};
use crate::inputs::Coordinate;
use crate::plan::Scenario;
use vstd::prelude::*;

verus! {

/// What a route is searched for.
#[derive(Clone, Copy)]
pub enum Goal {
    /// To stand on `cell`; where `later_than` is given, at a later time.
    Reach { cell: Coordinate, later_than: Option<usize> },
    /// To stand where `agent` stands by its plan, at a time before `horizon`;
    /// where they are given, later than `later_than` and no later than
    /// `until`.
    Rejoin { agent: usize, later_than: Option<usize>, until: Option<usize>, horizon: usize },
}

impl Goal {
    /// The node meets the goal.
    pub open spec fn met(self, plan: Scenario, n: Node) -> bool {
        match self {
            Goal::Reach { cell, later_than } => {
                &&& cell_of(n) == cell
                &&& later_than matches Some(t) ==> n.2 > t
            },
            Goal::Rejoin { agent, later_than, until, horizon } => {
                &&& agent < plan.paths.len()
                &&& n.2 < plan.paths[agent as int].len()
                &&& cell_of(n) == plan.paths[agent as int][n.2 as int]
                &&& n.2 < horizon
                &&& later_than matches Some(t) ==> n.2 > t
                &&& until matches Some(t) ==> n.2 <= t
            },
        }
    }

    /// The estimate of the steps that are left from a node: towards a cell
    /// the Manhattan distance; towards the plan of an agent half the
    /// distance to where the agent then stands, the two heading for each
    /// other, and nothing from the horizon on.
    pub open spec fn guess(self, plan: Scenario, n: Node) -> int {
        match self {
            Goal::Reach { cell, later_than } => cell.dist(cell_of(n)) as int,
            Goal::Rejoin { agent, later_than, until, horizon } => if agent < plan.paths.len() && n.2
                < plan.paths[agent as int].len() && n.2 < horizon {
                cell_of(n).dist(plan.paths[agent as int][n.2 as int]) as int / 2
            } else {
                0
            },
        }
    }

    /// Whether the node meets the goal.
    pub fn accepts(&self, plan: &Scenario, n: Node) -> (b: bool)
        ensures
            b == self.met(*plan, n),
    {
        let here = Coordinate { x: n.0, y: n.1 };
        match *self {
            Goal::Reach { cell, later_than } => {
                here == cell && match later_than {
                    Some(t) => n.2 > t,
                    None => true,
                }
            },
            Goal::Rejoin { agent, later_than, until, horizon } => {
                if agent < plan.paths.len() && n.2 < plan.paths[agent].len() {
                    let timely = match later_than {
                        Some(t) => n.2 > t,
                        None => true,
                    };
                    let early = match until {
                        Some(t) => n.2 <= t,
                        None => true,
                    };
                    here == plan.paths[agent][n.2] && n.2 < horizon && timely && early
                } else {
                    false
                }
            },
        }
    }

    /// The cost of one step of a route.
    pub fn step_cost(&self) -> (cost: usize)
        ensures
            cost == 1,
    {
        1
    }

    /// The estimate of the steps that are left from a node.
    pub fn estimate(&self, plan: &Scenario, n: Node) -> (steps: usize)
        ensures
            steps == self.guess(*plan, n),
    {
        let here = Coordinate { x: n.0, y: n.1 };
        match *self {
            Goal::Reach { cell, later_than } => cell.manh_dist(&here),
            Goal::Rejoin { agent, later_than, until, horizon } => {
                if agent < plan.paths.len() && n.2 < plan.paths[agent].len() && n.2 < horizon {
                    here.manh_dist(&plan.paths[agent][n.2]) / 2
                } else {
                    0
                }
            },
        }
    }
}

/// The `k`-th step of a route: its `k`-th node and the one after it.
pub open spec fn hop(route: Seq<Node>, k: int) -> (Node, Node) {
    (route[k], route[k + 1])
}

/// A route from `start`: a sequence of nodes that begins there, each joined
/// to the next by one of the edges.
pub open spec fn is_route(edges: Set<(Node, Node)>, start: Node, route: Seq<Node>) -> bool {
    &&& route.len() > 0
    &&& route[0] == start
    &&& forall|k: int| 0 <= k < route.len() - 1 ==> edges.contains(#[trigger] hop(route, k))
}

/// Every edge joins two near cells, one timestep apart.
pub open spec fn steps_in_time(edges: Set<(Node, Node)>) -> bool {
    forall|e: (Node, Node)|
        #[trigger] edges.contains(e) ==> e.0.2 + 1 == e.1.2 && cell_of(e.0).near(cell_of(e.1))
}

/// The estimate never overestimates: from no node is it greater than the
/// number of steps of a route from there to a node that meets the goal.
pub open spec fn admissible(edges: Set<(Node, Node)>, plan: Scenario, goal: Goal) -> bool {
    forall|n: Node, route: Seq<Node>|
        #![trigger is_route(edges, n, route)]
        is_route(edges, n, route) && goal.met(plan, route.last()) ==> goal.guess(plan, n) <= route.len()
            - 1
}

/// No route from `start` to a node that meets the goal is shorter than
/// `route`.
pub open spec fn shortest(
    edges: Set<(Node, Node)>,
    plan: Scenario,
    goal: Goal,
    start: Node,
    route: Seq<Node>,
) -> bool {
    forall|other: Seq<Node>|
        #![trigger is_route(edges, start, other)]
        is_route(edges, start, other) && goal.met(plan, other.last()) ==> route.len() <= other.len()
}

/// Where every edge joins near cells one timestep apart, a route ends as
/// many timesteps after its start as it has steps, and no further from it.
pub proof fn lemma_route_in_time(edges: Set<(Node, Node)>, start: Node, route: Seq<Node>)
    requires
        steps_in_time(edges),
        is_route(edges, start, route),
    ensures
        route.last().2 == start.2 + route.len() - 1,
        cell_of(start).dist(cell_of(route.last())) <= route.len() - 1,
    decreases route.len(),
{
    if route.len() > 1 {
        let shorter = route.drop_last();
        assert forall|k: int| 0 <= k < shorter.len() - 1 implies edges.contains(
            #[trigger] hop(shorter, k),
        ) by {
            assert(hop(shorter, k) == hop(route, k));
        }
        lemma_route_in_time(edges, start, shorter);
        let k = route.len() - 2;
        assert(edges.contains(hop(route, k)));
        assert(shorter.last() == route[k] && route.last() == route[k + 1]);
    }
}

/// On edges that join near cells one timestep apart, the Manhattan distance
/// to a cell never overestimates the steps to it.
pub proof fn lemma_reach_admissible(
    edges: Set<(Node, Node)>,
    plan: Scenario,
    cell: Coordinate,
    later_than: Option<usize>,
)
    requires
        steps_in_time(edges),
    ensures
        admissible(edges, plan, Goal::Reach { cell, later_than }),
{
    let goal = Goal::Reach { cell, later_than };
    assert forall|n: Node, route: Seq<Node>|
        #![trigger is_route(edges, n, route)]
        is_route(edges, n, route) && goal.met(plan, route.last()) implies goal.guess(plan, n)
        <= route.len() - 1 by {
        lemma_route_in_time(edges, n, route);
    }
}

/// The distance that a path covers between the times `t` and `t + 1`.
pub open spec fn stride(path: Seq<Coordinate>, t: int) -> nat {
    path[t].dist(path[t + 1])
}

/// The path moves by at most one step from each timestep to the next.
pub open spec fn unhurried(path: Seq<Coordinate>) -> bool {
    forall|t: int| 0 <= t < path.len() - 1 ==> #[trigger] stride(path, t) <= 1
}

/// A path that moves by at most one step at a time gets no further in a
/// number of timesteps than that number.
pub proof fn law_unhurried_path(path: Seq<Coordinate>, s: int, t: int)
    requires
        unhurried(path),
        0 <= s <= t < path.len(),
    ensures
        path[s].dist(path[t]) <= t - s,
    decreases t - s,
{
    if s < t {
        law_unhurried_path(path, s, t - 1);
        assert(stride(path, t - 1) <= 1);
    }
}

/// On edges that join near cells one timestep apart, half the distance to
/// where an agent then stands never overestimates the steps to its plan,
/// where the agent moves by at most one step at a time.
pub proof fn law_rejoin_estimate_admissible(
    edges: Set<(Node, Node)>,
    plan: Scenario,
    agent: usize,
    later_than: Option<usize>,
    until: Option<usize>,
    horizon: usize,
)
    requires
        steps_in_time(edges),
        agent < plan.paths.len(),
        unhurried(plan.paths[agent as int]@),
    ensures
        admissible(edges, plan, Goal::Rejoin { agent, later_than, until, horizon }),
{
    let goal = Goal::Rejoin { agent, later_than, until, horizon };
    let path = plan.paths[agent as int]@;
    assert forall|n: Node, route: Seq<Node>|
        #![trigger is_route(edges, n, route)]
        is_route(edges, n, route) && goal.met(plan, route.last()) implies goal.guess(plan, n)
        <= route.len() - 1 by {
        lemma_route_in_time(edges, n, route);
        let last = route.last();
        if n.2 < path.len() && n.2 < horizon {
            law_unhurried_path(path, n.2 as int, last.2 as int);
            assert(cell_of(n).dist(path[n.2 as int]) <= cell_of(n).dist(cell_of(last)) + path[n.2 as int].dist(
                path[last.2 as int],
            ));
        }
    }
}

/// `petgraph::algo::astar` with unit step cost: where it finds a path, the
/// path is a route from `start` whose last node meets the goal, and, where
/// the estimate never overestimates, no such route is shorter; it finds none
/// only where no route from `start` ends on a node that meets the goal.
/// Nothing is claimed of which of several shortest routes it finds.
#[verifier::external_body]
pub(crate) fn astar_route(g: &TimeGraph, start: Node, plan: &Scenario, goal: &Goal) -> (found: Option<Vec<Node>>)
    ensures
        match found {
            Some(route) => {
                &&& is_route(g.edges(), start, route@)
                &&& goal.met(*plan, route@.last())
                &&& admissible(g.edges(), *plan, *goal) ==> shortest(
                    g.edges(),
                    *plan,
                    *goal,
                    start,
                    route@,
                )
            },
            None => forall|route: Seq<Node>|
                #![trigger is_route(g.edges(), start, route)]
                is_route(g.edges(), start, route) ==> !goal.met(*plan, route.last()),
        },
{
    let found = petgraph::algo::astar(
        &g.map,
        start,
        |n| goal.accepts(plan, n),
        |_| goal.step_cost(),
        |n| goal.estimate(plan, n),
    );
    found.map(|scored| scored.1)
}

} // verus!
