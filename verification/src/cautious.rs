//! The cautious attacker: it leaves its plan only where no defender can
//! observe it before it is back. The analysis floods, timestep by timestep,
//! the cells that each agent can have reached, and asks whether the attacker
//! can reach the safe cell within its flood before a defender's flood comes
//! close.

use crate::cells::{cells_at, close, first_cell, lemma_first_cell, timed, CellSet, TimedSet};
use crate::graph::{build_graph, cell_of, is_edge, Node, TimeGraph};
use crate::inputs::{gap, Coordinate, TimedCoordinate};
use crate::plan::Scenario;
use vstd::prelude::*;

verus! {

/// The cells that each agent can have reached: one set for each agent.
pub type Floods = Seq<Set<Coordinate>>;

/// The floods that a vector of sets holds.
pub open spec fn floods_of(sets: Seq<CellSet>) -> Floods {
    Seq::new(sets.len(), |i: int| sets[i]@)
}

/// The cells that some defender can have reached, when agent `a` attacks.
pub open spec fn guarded(plan: Scenario, a: int, x: Floods) -> Set<Coordinate> {
    Set::new(
        |c: Coordinate|
            exists|d: int| 0 <= d < x.len() && plan.opposes(a, d) && (#[trigger] x[d]).contains(c),
    )
}

/// The cells that some defender can observe from a cell that it can have
/// reached, when agent `a` attacks: the cells close to one of those.
pub open spec fn observable(plan: Scenario, a: int, x: Floods) -> Set<Coordinate> {
    Set::new(
        |c: Coordinate|
            exists|d: int, q: Coordinate|
                0 <= d < x.len() && plan.opposes(a, d) && #[trigger] x[d].contains(q) && close(c, q),
    )
}

/// Adds to the set the cells of column `x` whose row is at most one from
/// that of `q`.
fn add_column(s: &mut CellSet, x: u16, q: Coordinate)
    ensures
        final(s)@ == old(s)@.union(Set::new(|c: Coordinate| c.x == x && gap(c.y, q.y) <= 1)),
{
    s.insert(Coordinate { x, y: q.y });
    if q.y > 0 {
        s.insert(Coordinate { x, y: (q.y - 1) as u16 });
    }
    if q.y < u16::MAX {
        s.insert(Coordinate { x, y: (q.y + 1) as u16 });
    }
    assert(s@ =~= old(s)@.union(Set::new(|c: Coordinate| c.x == x && gap(c.y, q.y) <= 1)));
}

/// Adds to the set the cells close to `q`.
fn add_surroundings(s: &mut CellSet, q: Coordinate)
    ensures
        final(s)@ == old(s)@.union(Set::new(|c: Coordinate| close(c, q))),
{
    add_column(s, q.x, q);
    if q.x > 0 {
        add_column(s, (q.x - 1) as u16, q);
    }
    if q.x < u16::MAX {
        add_column(s, (q.x + 1) as u16, q);
    }
    assert(s@ =~= old(s)@.union(Set::new(|c: Coordinate| close(c, q))));
}

/// The cells close to one of the first `k` of some cells.
pub open spec fn close_to_any(cells: Seq<Coordinate>, k: int) -> Set<Coordinate> {
    Set::new(|c: Coordinate| exists|j: int| 0 <= j < k && close(c, #[trigger] cells[j]))
}

/// The cells that one of the first `n` agents, where it is a defender, can
/// observe from a cell that it can have reached.
pub open spec fn observable_by(plan: Scenario, a: int, x: Floods, n: int) -> Set<Coordinate> {
    Set::new(
        |c: Coordinate|
            exists|d: int, q: Coordinate|
                0 <= d < n && plan.opposes(a, d) && #[trigger] x[d].contains(q) && close(c, q),
    )
}

/// The cells close to one of the cells of a set.
fn surroundings(flood: &CellSet) -> (seen: CellSet)
    ensures
        seen@ == close_to_any(flood.cells@, flood.cells.len() as int),
{
    let mut seen = CellSet::new();
    let mut k: usize = 0;
    assert(seen@ =~= close_to_any(flood.cells@, 0));
    while k < flood.cells.len()
        invariant
            k <= flood.cells.len(),
            seen@ == close_to_any(flood.cells@, k as int),
        decreases flood.cells.len() - k,
    {
        add_surroundings(&mut seen, flood.cells[k]);
        assert forall|c: Coordinate|
            close_to_any(flood.cells@, k + 1).contains(c) <==> close_to_any(
                flood.cells@,
                k as int,
            ).contains(c) || close(c, flood.cells[k as int]) by {
            if close_to_any(flood.cells@, k as int).contains(c) {
                let j = choose|j: int| 0 <= j < k && close(c, #[trigger] flood.cells[j]);
                assert(close(c, flood.cells[j]));
            }
        }
        k += 1;
        assert(seen@ =~= close_to_any(flood.cells@, k as int));
    }
    seen
}

/// The cells that the defenders can observe from the cells that they can
/// have reached, when `attacker` attacks.
pub fn defender_observed(plan: &Scenario, attacker: usize, floods: &Vec<CellSet>) -> (seen: CellSet)
    requires
        attacker < plan.names.len(),
        floods.len() == plan.names.len(),
    ensures
        seen@ == observable(*plan, attacker as int, floods_of(floods@)),
{
    let ghost x = floods_of(floods@);
    let ghost a = attacker as int;
    let mut seen = CellSet::new();
    let mut d: usize = 0;
    assert(seen@ =~= observable_by(*plan, a, x, 0));
    while d < floods.len()
        invariant
            attacker < plan.names.len(),
            floods.len() == plan.names.len(),
            x == floods_of(floods@),
            a == attacker,
            d <= floods.len(),
            seen@ == observable_by(*plan, a, x, d as int),
        decreases floods.len() - d,
    {
        let ghost before = seen@;
        if plan.defends(attacker, d) {
            let flood = &floods[d];
            let around = surroundings(flood);
            seen = seen.union(&around);
            assert forall|c: Coordinate|
                observable_by(*plan, a, x, d + 1).contains(c) <==> before.contains(c)
                    || around@.contains(c) by {
                assert(flood@ == x[d as int]);
                if around@.contains(c) {
                    let j = choose|j: int|
                        0 <= j < flood.cells.len() && close(c, #[trigger] flood.cells[j]);
                    assert(flood.cells@.contains(flood.cells[j]));
                    assert(x[d as int].contains(flood.cells[j]));
                }
                if before.contains(c) {
                    let (w, q) = choose|w: int, q: Coordinate|
                        0 <= w < d && plan.opposes(a, w) && #[trigger] x[w].contains(q) && close(c, q);
                    assert(x[w].contains(q));
                }
                if observable_by(*plan, a, x, d + 1).contains(c) {
                    let (w, q) = choose|w: int, q: Coordinate|
                        0 <= w < d + 1 && plan.opposes(a, w) && #[trigger] x[w].contains(q) && close(
                            c,
                            q,
                        );
                    if w == d {
                        assert(flood.cells@.contains(q));
                        let j = choose|j: int| 0 <= j < flood.cells.len() && flood.cells[j] == q;
                        assert(close(c, flood.cells[j]));
                    } else {
                        assert(x[w].contains(q));
                    }
                }
            }
        } else {
            assert forall|c: Coordinate|
                observable_by(*plan, a, x, d + 1).contains(c) <==> before.contains(c) by {
                if before.contains(c) {
                    let (w, q) = choose|w: int, q: Coordinate|
                        0 <= w < d && plan.opposes(a, w) && #[trigger] x[w].contains(q) && close(c, q);
                    assert(x[w].contains(q));
                }
                if observable_by(*plan, a, x, d + 1).contains(c) {
                    let (w, q) = choose|w: int, q: Coordinate|
                        0 <= w < d + 1 && plan.opposes(a, w) && #[trigger] x[w].contains(q) && close(
                            c,
                            q,
                        );
                    assert(x[w].contains(q));
                }
            }
        }
        d += 1;
        assert(seen@ =~= observable_by(*plan, a, x, d as int));
    }
    assert(seen@ =~= observable(*plan, a, x));
    seen
}

/// Agent `i` stands on the cell `c` at time `fut` by its plan and has
/// announced, at time `curr`, where it moves next: it is committed to that
/// move.
pub open spec fn forced(plan: Scenario, c: Coordinate, curr: int, fut: int, i: int) -> bool {
    0 <= i < plan.names.len() && plan.paths[i][fut] == c && plan.horizons[i][curr] > fut + 1
}

/// Agent `i` is the first that is committed to move on from `c`.
pub open spec fn forced_first(plan: Scenario, c: Coordinate, curr: int, fut: int, i: int) -> bool {
    forced(plan, c, curr, fut, i) && forall|j: int| 0 <= j < i ==> !forced(plan, c, curr, fut, j)
}

/// The first agent that is committed to move on from `c` is unique.
proof fn lemma_forced_first(plan: Scenario, c: Coordinate, curr: int, fut: int, i: int)
    requires
        forced_first(plan, c, curr, fut, i),
    ensures
        (choose|k: int| forced_first(plan, c, curr, fut, k)) == i,
{
    let k = choose|k: int| forced_first(plan, c, curr, fut, k);
    assert(forced_first(plan, c, curr, fut, k));
    if k < i {
        assert(!forced(plan, c, curr, fut, k));
    } else if i < k {
        assert(!forced(plan, c, curr, fut, i));
    }
}

/// The cells on which one of the first `n` agents has announced, at time
/// `curr`, to stand at time `fut + 1`.
pub open spec fn committed(plan: Scenario, curr: int, fut: int, n: int) -> Set<Coordinate> {
    Set::new(
        |m: Coordinate|
            exists|i: int|
                0 <= i < n && (#[trigger] plan.horizons[i])[curr] > fut + 1 && plan.paths[i][fut + 1]
                    == m,
    )
}

/// The cells from which one of the first `n` agents moves, by its plan, onto
/// the cell `c` between the times `fut` and `fut + 1`.
pub open spec fn swapping(plan: Scenario, c: Coordinate, fut: int, n: int) -> Set<Coordinate> {
    Set::new(
        |m: Coordinate|
            exists|i: int|
                0 <= i < n && (#[trigger] plan.paths[i])[fut + 1] == c && plan.paths[i][fut] == m,
    )
}

/// The cells that the edges of the graph lead to from the cell `c` at
/// timestep 1: where a robot on `c` can be one step later.
pub open spec fn onward(edges: Set<(Node, Node)>, c: Coordinate) -> Set<Coordinate> {
    Set::new(
        |m: Coordinate|
            exists|n: Node| #[trigger] edges.contains(((c.x, c.y, 1usize), n)) && cell_of(n) == m,
    )
}

/// Where a robot that is free to choose can move from the cell `c` between
/// the times `fut` and `fut + 1`: onward by the graph, but not onto a cell
/// that an agent has announced, at time `curr`, to stand on then; where it
/// cannot stay either, not onto a cell from which an agent moves onto `c`;
/// and onto none of the blocked cells.
pub open spec fn free_moves(
    plan: Scenario,
    edges: Set<(Node, Node)>,
    blocked: Set<Coordinate>,
    c: Coordinate,
    curr: int,
    fut: int,
) -> Set<Coordinate> {
    let base = onward(edges, c);
    let open = if fut < plan.makespan {
        let kept = base.difference(committed(plan, curr, fut, plan.names.len() as int));
        if kept.contains(c) {
            kept
        } else {
            kept.difference(swapping(plan, c, fut, plan.names.len() as int))
        }
    } else {
        base
    };
    open.difference(blocked)
}

/// Where a robot can move from the cell `c` between the times `fut` and
/// `fut + 1`. A robot other than the attacker that stands where an agent is
/// committed to move on can only make that agent's move; any other robot is
/// free to choose.
pub open spec fn moves(
    plan: Scenario,
    edges: Set<(Node, Node)>,
    blocked: Set<Coordinate>,
    c: Coordinate,
    curr: int,
    fut: int,
    attacker_mode: bool,
) -> Set<Coordinate> {
    if !attacker_mode && fut < plan.makespan && exists|i: int| forced(plan, c, curr, fut, i) {
        set![plan.paths[choose|i: int| forced_first(plan, c, curr, fut, i)][fut + 1]]
    } else {
        free_moves(plan, edges, blocked, c, curr, fut)
    }
}

/// The scenario `less` differs from the scenario `more` in its horizons
/// alone, none of which lies later.
pub open spec fn announces_less(less: Scenario, more: Scenario) -> bool {
    &&& less.makespan == more.makespan
    &&& less.names.len() == more.names.len()
    &&& less.table() == more.table()
    &&& less.horizons.len() == more.horizons.len()
    &&& forall|i: int, t: int|
        0 <= i < less.horizons.len() && 0 <= t < less.horizons[i].len() ==> t
            < more.horizons[i].len() && (#[trigger] less.horizons[i][t]) <= more.horizons[i][t]
}

/// A free robot that is told less can move wherever it could move when it was
/// told more: with horizons that lie no later, fewer cells are announced, and
/// the same moves would be swaps.
pub proof fn law_less_announced_more_moves(
    less: Scenario,
    more: Scenario,
    edges: Set<(Node, Node)>,
    blocked: Set<Coordinate>,
    c: Coordinate,
    curr: int,
    fut: int,
)
    requires
        less.wf(),
        more.wf(),
        announces_less(less, more),
        0 <= curr <= less.makespan,
        0 <= fut,
    ensures
        free_moves(more, edges, blocked, c, curr, fut).subset_of(
            free_moves(less, edges, blocked, c, curr, fut),
        ),
{
    let n = less.names.len() as int;
    if fut < less.makespan {
        assert forall|i: int| 0 <= i < n implies less.paths[i][fut] == more.paths[i][fut]
            && less.paths[i][fut + 1] == more.paths[i][fut + 1] by {
            assert(less.table()[i] == less.paths[i]@);
            assert(more.table()[i] == more.paths[i]@);
        }
        assert forall|m: Coordinate| committed(less, curr, fut, n).contains(m) implies committed(
            more,
            curr,
            fut,
            n,
        ).contains(m) by {
            let i = choose|i: int|
                0 <= i < n && (#[trigger] less.horizons[i])[curr] > fut + 1 && less.paths[i][fut + 1]
                    == m;
            assert(less.horizons[i][curr] <= more.horizons[i][curr]);
            assert(more.horizons[i][curr] > fut + 1 && more.paths[i][fut + 1] == m);
        }
        assert forall|m: Coordinate| swapping(less, c, fut, n).contains(m) implies swapping(
            more,
            c,
            fut,
            n,
        ).contains(m) by {
            let i = choose|i: int|
                0 <= i < n && (#[trigger] less.paths[i])[fut + 1] == c && less.paths[i][fut] == m;
            assert(more.paths[i][fut + 1] == c && more.paths[i][fut] == m);
        }
    }
}

/// The cells of the first `k` of some nodes.
pub open spec fn cells_of_nodes(nodes: Seq<Node>, k: int) -> Set<Coordinate> {
    Set::new(|m: Coordinate| exists|j: int| 0 <= j < k && cell_of(#[trigger] nodes[j]) == m)
}

/// Where a robot on the cell `c` can be one step later by the graph.
fn step_onward(g: &TimeGraph, c: Coordinate) -> (res: CellSet)
    ensures
        res@ == onward(g.edges(), c),
{
    let neighbors = g.neighbors((c.x, c.y, 1));
    let mut res = CellSet::new();
    let mut k: usize = 0;
    assert(res@ =~= cells_of_nodes(neighbors@, 0));
    while k < neighbors.len()
        invariant
            k <= neighbors.len(),
            res@ == cells_of_nodes(neighbors@, k as int),
        decreases neighbors.len() - k,
    {
        let n = neighbors[k];
        res.insert(Coordinate { x: n.0, y: n.1 });
        assert forall|m: Coordinate|
            cells_of_nodes(neighbors@, k + 1).contains(m) <==> cells_of_nodes(
                neighbors@,
                k as int,
            ).contains(m) || m == cell_of(n) by {
            if cells_of_nodes(neighbors@, k as int).contains(m) {
                let j = choose|j: int| 0 <= j < k && cell_of(#[trigger] neighbors[j]) == m;
                assert(cell_of(neighbors[j]) == m);
            }
            if m == cell_of(n) {
                assert(cell_of(neighbors[k as int]) == m);
            }
        }
        k += 1;
        assert(res@ =~= cells_of_nodes(neighbors@, k as int));
    }
    assert forall|m: Coordinate| res@.contains(m) <==> onward(g.edges(), c).contains(m) by {
        if res@.contains(m) {
            let j = choose|j: int| 0 <= j < neighbors.len() && cell_of(#[trigger] neighbors[j]) == m;
            assert(neighbors@.contains(neighbors[j]));
            assert(g.edges().contains(((c.x, c.y, 1usize), neighbors[j])));
        }
        if onward(g.edges(), c).contains(m) {
            let n = choose|n: Node|
                #[trigger] g.edges().contains(((c.x, c.y, 1usize), n)) && cell_of(n) == m;
            assert(neighbors@.contains(n));
            let j = choose|j: int| 0 <= j < neighbors.len() && neighbors[j] == n;
            assert(cell_of(neighbors[j]) == m);
        }
    }
    assert(res@ =~= onward(g.edges(), c));
    res
}

/// The agent that is committed to move on from the cell `c`, where there is
/// one: the first such agent.
fn committed_agent(plan: &Scenario, c: Coordinate, curr: usize, fut: usize) -> (found: Option<usize>)
    requires
        plan.wf(),
        curr <= plan.makespan,
        fut < plan.makespan,
    ensures
        match found {
            Some(i) => forced_first(*plan, c, curr as int, fut as int, i as int),
            None => !exists|i: int| forced(*plan, c, curr as int, fut as int, i),
        },
{
    let mut i: usize = 0;
    while i < plan.names.len()
        invariant
            plan.wf(),
            curr <= plan.makespan,
            fut < plan.makespan,
            i <= plan.names.len(),
            forall|j: int| 0 <= j < i ==> !forced(*plan, c, curr as int, fut as int, j),
        decreases plan.names.len() - i,
    {
        if plan.paths[i][fut] == c && plan.horizons[i][curr] > fut + 1 {
            return Some(i);
        }
        i += 1;
    }
    None
}

/// Where a robot can move from the cell `c` between the times `fut` and
/// `fut + 1`, given what the agents have announced at time `curr` and the
/// cells that are blocked at time `fut + 1`.
pub fn move_robot(
    plan: &Scenario,
    g: &TimeGraph,
    blocked: &CellSet,
    c: Coordinate,
    curr: usize,
    fut: usize,
    attacker_mode: bool,
) -> (res: CellSet)
    requires
        plan.wf(),
        curr <= plan.makespan,
    ensures
        res@ == moves(*plan, g.edges(), blocked@, c, curr as int, fut as int, attacker_mode),
{
    let n = plan.names.len();
    if !attacker_mode && fut < plan.makespan {
        match committed_agent(plan, c, curr, fut) {
            Some(i) => {
                proof {
                    lemma_forced_first(*plan, c, curr as int, fut as int, i as int);
                }
                let mut res = CellSet::new();
                res.insert(plan.paths[i][fut + 1]);
                assert(res@ =~= set![plan.paths[i as int][fut + 1]]);
                return res;
            },
            None => {},
        }
    }
    let mut res = step_onward(g, c);
    if fut < plan.makespan {
        let ghost base = res@;
        let mut i: usize = 0;
        assert(res@ =~= base.difference(committed(*plan, curr as int, fut as int, 0)));
        while i < n
            invariant
                plan.wf(),
                n == plan.names.len(),
                curr <= plan.makespan,
                fut < plan.makespan,
                i <= n,
                res@ == base.difference(committed(*plan, curr as int, fut as int, i as int)),
            decreases n - i,
        {
            if plan.horizons[i][curr] > fut + 1 {
                res.remove(plan.paths[i][fut + 1]);
            }
            assert forall|m: Coordinate|
                committed(*plan, curr as int, fut as int, i + 1).contains(m) <==> committed(
                    *plan,
                    curr as int,
                    fut as int,
                    i as int,
                ).contains(m) || (plan.horizons[i as int][curr as int] > fut + 1
                    && plan.paths[i as int][fut + 1] == m) by {
                if committed(*plan, curr as int, fut as int, i as int).contains(m) {
                    let w = choose|w: int|
                        0 <= w < i && (#[trigger] plan.horizons[w])[curr as int] > fut + 1
                            && plan.paths[w][fut + 1] == m;
                    assert(plan.horizons[w][curr as int] > fut + 1);
                }
                if plan.horizons[i as int][curr as int] > fut + 1 && plan.paths[i as int][fut + 1]
                    == m {
                    assert(committed(*plan, curr as int, fut as int, i + 1).contains(m));
                }
            }
            i += 1;
            assert(res@ =~= base.difference(committed(*plan, curr as int, fut as int, i as int)));
        }
        if !res.contains(&c) {
            let ghost kept = res@;
            let mut i: usize = 0;
            assert(res@ =~= kept.difference(swapping(*plan, c, fut as int, 0)));
            while i < n
                invariant
                    plan.wf(),
                    n == plan.names.len(),
                    fut < plan.makespan,
                    i <= n,
                    res@ == kept.difference(swapping(*plan, c, fut as int, i as int)),
                decreases n - i,
            {
                if plan.paths[i][fut + 1] == c {
                    res.remove(plan.paths[i][fut]);
                }
                assert forall|m: Coordinate|
                    swapping(*plan, c, fut as int, i + 1).contains(m) <==> swapping(
                        *plan,
                        c,
                        fut as int,
                        i as int,
                    ).contains(m) || (plan.paths[i as int][fut + 1] == c && plan.paths[i as int][fut as int]
                        == m) by {
                    if swapping(*plan, c, fut as int, i as int).contains(m) {
                        let w = choose|w: int|
                            0 <= w < i && (#[trigger] plan.paths[w])[fut + 1] == c && plan.paths[w][fut as int]
                                == m;
                        assert(plan.paths[w][fut + 1] == c);
                    }
                    if plan.paths[i as int][fut + 1] == c && plan.paths[i as int][fut as int] == m {
                        assert(swapping(*plan, c, fut as int, i + 1).contains(m));
                    }
                }
                i += 1;
                assert(res@ =~= kept.difference(swapping(*plan, c, fut as int, i as int)));
            }
        }
    }
    res.difference(blocked)
}

/// A robot on the cell `v` has nowhere to move.
pub open spec fn dead_end(
    plan: Scenario,
    edges: Set<(Node, Node)>,
    blocked: Set<Coordinate>,
    v: Coordinate,
    curr: int,
    fut: int,
    attacker_mode: bool,
) -> bool {
    moves(plan, edges, blocked, v, curr, fut, attacker_mode) == Set::<Coordinate>::empty()
}

/// The cells of a flood from which a robot has nowhere to move.
pub open spec fn stuck(
    plan: Scenario,
    edges: Set<(Node, Node)>,
    blocked: Set<Coordinate>,
    flood: Set<Coordinate>,
    curr: int,
    fut: int,
    attacker_mode: bool,
) -> Set<Coordinate> {
    Set::new(
        |v: Coordinate| flood.contains(v) && dead_end(plan, edges, blocked, v, curr, fut, attacker_mode),
    )
}

/// The flood one step on: the cells to which a robot can move from a cell of
/// the flood.
pub open spec fn flooded(
    plan: Scenario,
    edges: Set<(Node, Node)>,
    blocked: Set<Coordinate>,
    flood: Set<Coordinate>,
    curr: int,
    fut: int,
    attacker_mode: bool,
) -> Set<Coordinate> {
    Set::new(
        |m: Coordinate|
            exists|v: Coordinate|
                flood.contains(v) && #[trigger] moves(
                    plan,
                    edges,
                    blocked,
                    v,
                    curr,
                    fut,
                    attacker_mode,
                ).contains(m),
    )
}

/// The cell `c` at the time `t`.
pub open spec fn at_time(c: Coordinate, t: int) -> TimedCoordinate {
    TimedCoordinate { x: c.x, y: c.y, t: t as usize }
}

/// The conflicts after a flood has been taken one step on: in attacker mode
/// every cell of the flood that is a dead end has joined them, at the time
/// `fut`; otherwise the first such cell has, where there is one.
pub open spec fn conflicts_after(
    plan: Scenario,
    edges: Set<(Node, Node)>,
    conflicts: Set<TimedCoordinate>,
    flood: Set<Coordinate>,
    curr: int,
    fut: int,
    attacker_mode: bool,
) -> Set<TimedCoordinate> {
    let dead = stuck(plan, edges, cells_at(conflicts, fut + 1), flood, curr, fut, attacker_mode);
    if attacker_mode {
        conflicts.union(timed(dead, fut))
    } else if dead == Set::<Coordinate>::empty() {
        conflicts
    } else {
        conflicts.insert(at_time(first_cell(dead), fut))
    }
}

/// Like `stuck`, of the first `k` of some cells.
pub open spec fn stuck_first(
    plan: Scenario,
    edges: Set<(Node, Node)>,
    blocked: Set<Coordinate>,
    cells: Seq<Coordinate>,
    k: int,
    curr: int,
    fut: int,
    attacker_mode: bool,
) -> Set<Coordinate> {
    Set::new(
        |v: Coordinate|
            (exists|j: int| 0 <= j < k && #[trigger] cells[j] == v) && dead_end(
                plan,
                edges,
                blocked,
                v,
                curr,
                fut,
                attacker_mode,
            ),
    )
}

/// Like `flooded`, of the first `k` of some cells.
pub open spec fn flooded_first(
    plan: Scenario,
    edges: Set<(Node, Node)>,
    blocked: Set<Coordinate>,
    cells: Seq<Coordinate>,
    k: int,
    curr: int,
    fut: int,
    attacker_mode: bool,
) -> Set<Coordinate> {
    Set::new(
        |m: Coordinate|
            exists|j: int|
                0 <= j < k && moves(
                    plan,
                    edges,
                    blocked,
                    #[trigger] cells[j],
                    curr,
                    fut,
                    attacker_mode,
                ).contains(m),
    )
}

/// Takes a flood one step on, from the time `fut` to `fut + 1`, given what
/// the agents have announced at time `curr`.
///
/// A cell of the flood from which there is nowhere to move is a dead end. In
/// attacker mode every dead end joins the conflicts and the flood goes on
/// without it. Otherwise the first dead end joins the conflicts and the step
/// fails.
pub fn reachable(
    plan: &Scenario,
    g: &TimeGraph,
    flood: &CellSet,
    curr: usize,
    fut: usize,
    conflicts: &mut TimedSet,
    attacker_mode: bool,
) -> (res: Result<CellSet, ()>)
    requires
        plan.wf(),
        curr <= plan.makespan,
        fut < usize::MAX,
    ensures
        final(conflicts)@ == conflicts_after(
            *plan,
            g.edges(),
            old(conflicts)@,
            flood@,
            curr as int,
            fut as int,
            attacker_mode,
        ),
        res is Err <==> !attacker_mode && stuck(
            *plan,
            g.edges(),
            cells_at(old(conflicts)@, fut + 1),
            flood@,
            curr as int,
            fut as int,
            attacker_mode,
        ) != Set::<Coordinate>::empty(),
        res matches Ok(s) ==> s@ == flooded(
            *plan,
            g.edges(),
            cells_at(old(conflicts)@, fut + 1),
            flood@,
            curr as int,
            fut as int,
            attacker_mode,
        ),
{
    let blocked = conflicts.at(fut + 1);
    let ghost edges = g.edges();
    let ghost walls = blocked@;
    let mut grown = CellSet::new();
    let mut dead = CellSet::new();
    let mut k: usize = 0;
    assert(grown@ =~= flooded_first(
        *plan,
        edges,
        walls,
        flood.cells@,
        0,
        curr as int,
        fut as int,
        attacker_mode,
    ));
    assert(dead@ =~= stuck_first(
        *plan,
        edges,
        walls,
        flood.cells@,
        0,
        curr as int,
        fut as int,
        attacker_mode,
    ));
    while k < flood.cells.len()
        invariant
            plan.wf(),
            curr <= plan.makespan,
            edges == g.edges(),
            walls == blocked@,
            k <= flood.cells.len(),
            grown@ == flooded_first(
                *plan,
                edges,
                walls,
                flood.cells@,
                k as int,
                curr as int,
                fut as int,
                attacker_mode,
            ),
            dead@ == stuck_first(
                *plan,
                edges,
                walls,
                flood.cells@,
                k as int,
                curr as int,
                fut as int,
                attacker_mode,
            ),
        decreases flood.cells.len() - k,
    {
        let v = flood.cells[k];
        let next = move_robot(plan, g, &blocked, v, curr, fut, attacker_mode);
        if next.is_empty() {
            dead.insert(v);
        } else {
            grown = grown.union(&next);
        }
        proof {
            let here = moves(*plan, edges, walls, v, curr as int, fut as int, attacker_mode);
            assert forall|m: Coordinate|
                flooded_first(
                    *plan,
                    edges,
                    walls,
                    flood.cells@,
                    k + 1,
                    curr as int,
                    fut as int,
                    attacker_mode,
                ).contains(m) <==> flooded_first(
                    *plan,
                    edges,
                    walls,
                    flood.cells@,
                    k as int,
                    curr as int,
                    fut as int,
                    attacker_mode,
                ).contains(m) || here.contains(m) by {
                if flooded_first(
                    *plan,
                    edges,
                    walls,
                    flood.cells@,
                    k as int,
                    curr as int,
                    fut as int,
                    attacker_mode,
                ).contains(m) {
                    let j = choose|j: int|
                        0 <= j < k && moves(
                            *plan,
                            edges,
                            walls,
                            #[trigger] flood.cells[j],
                            curr as int,
                            fut as int,
                            attacker_mode,
                        ).contains(m);
                    assert(moves(
                        *plan,
                        edges,
                        walls,
                        flood.cells[j],
                        curr as int,
                        fut as int,
                        attacker_mode,
                    ).contains(m));
                }
                if here.contains(m) {
                    assert(moves(
                        *plan,
                        edges,
                        walls,
                        flood.cells[k as int],
                        curr as int,
                        fut as int,
                        attacker_mode,
                    ).contains(m));
                }
            }
            assert forall|w: Coordinate|
                stuck_first(
                    *plan,
                    edges,
                    walls,
                    flood.cells@,
                    k + 1,
                    curr as int,
                    fut as int,
                    attacker_mode,
                ).contains(w) <==> stuck_first(
                    *plan,
                    edges,
                    walls,
                    flood.cells@,
                    k as int,
                    curr as int,
                    fut as int,
                    attacker_mode,
                ).contains(w) || (w == v && here == Set::<Coordinate>::empty()) by {
                if stuck_first(
                    *plan,
                    edges,
                    walls,
                    flood.cells@,
                    k as int,
                    curr as int,
                    fut as int,
                    attacker_mode,
                ).contains(w) {
                    let j = choose|j: int| 0 <= j < k && #[trigger] flood.cells[j] == w;
                    assert(flood.cells[j] == w);
                }
                if w == v && here == Set::<Coordinate>::empty() {
                    assert(flood.cells[k as int] == w);
                }
            }
        }
        k += 1;
        assert(grown@ =~= flooded_first(
            *plan,
            edges,
            walls,
            flood.cells@,
            k as int,
            curr as int,
            fut as int,
            attacker_mode,
        ));
        assert(dead@ =~= stuck_first(
            *plan,
            edges,
            walls,
            flood.cells@,
            k as int,
            curr as int,
            fut as int,
            attacker_mode,
        ));
    }
    proof {
        assert forall|m: Coordinate|
            grown@.contains(m) <==> flooded(
                *plan,
                edges,
                walls,
                flood@,
                curr as int,
                fut as int,
                attacker_mode,
            ).contains(m) by {
            if grown@.contains(m) {
                let j = choose|j: int|
                    0 <= j < k && moves(
                        *plan,
                        edges,
                        walls,
                        #[trigger] flood.cells[j],
                        curr as int,
                        fut as int,
                        attacker_mode,
                    ).contains(m);
                assert(flood.cells@.contains(flood.cells[j]));
            }
            if flooded(*plan, edges, walls, flood@, curr as int, fut as int, attacker_mode).contains(
                m,
            ) {
                let v = choose|v: Coordinate|
                    flood@.contains(v) && #[trigger] moves(
                        *plan,
                        edges,
                        walls,
                        v,
                        curr as int,
                        fut as int,
                        attacker_mode,
                    ).contains(m);
                let j = choose|j: int| 0 <= j < flood.cells.len() && flood.cells[j] == v;
                assert(moves(
                    *plan,
                    edges,
                    walls,
                    flood.cells[j],
                    curr as int,
                    fut as int,
                    attacker_mode,
                ).contains(m));
            }
        }
        assert(grown@ =~= flooded(*plan, edges, walls, flood@, curr as int, fut as int, attacker_mode));
        assert forall|w: Coordinate|
            dead@.contains(w) <==> stuck(
                *plan,
                edges,
                walls,
                flood@,
                curr as int,
                fut as int,
                attacker_mode,
            ).contains(w) by {
            if dead@.contains(w) {
                let j = choose|j: int| 0 <= j < k && #[trigger] flood.cells[j] == w;
                assert(flood.cells@.contains(flood.cells[j]));
            }
            if stuck(*plan, edges, walls, flood@, curr as int, fut as int, attacker_mode).contains(w) {
                let j = choose|j: int| 0 <= j < flood.cells.len() && flood.cells[j] == w;
                assert(flood.cells[j] == w);
            }
        }
        assert(dead@ =~= stuck(*plan, edges, walls, flood@, curr as int, fut as int, attacker_mode));
    }
    if attacker_mode {
        conflicts.insert_all(&dead, fut);
        Ok(grown)
    } else {
        match dead.first() {
            Some(v) => {
                proof {
                    lemma_first_cell(dead@, v);
                }
                conflicts.insert(TimedCoordinate { x: v.x, y: v.y, t: fut });
                Err(())
            },
            None => Ok(grown),
        }
    }
}

/// The cells that one of the first `n` agents, where it is a defender, can
/// have reached.
pub open spec fn guarded_by(plan: Scenario, a: int, x: Floods, n: int) -> Set<Coordinate> {
    Set::new(
        |c: Coordinate|
            exists|d: int| 0 <= d < n && plan.opposes(a, d) && (#[trigger] x[d]).contains(c),
    )
}

/// The cells that some defender can have reached, when `attacker` attacks.
pub fn guard_cells(plan: &Scenario, attacker: usize, floods: &Vec<CellSet>) -> (held: CellSet)
    requires
        attacker < plan.names.len(),
        floods.len() == plan.names.len(),
    ensures
        held@ == guarded(*plan, attacker as int, floods_of(floods@)),
{
    let ghost x = floods_of(floods@);
    let ghost a = attacker as int;
    let mut held = CellSet::new();
    let mut d: usize = 0;
    assert(held@ =~= guarded_by(*plan, a, x, 0));
    while d < floods.len()
        invariant
            attacker < plan.names.len(),
            floods.len() == plan.names.len(),
            x == floods_of(floods@),
            a == attacker,
            d <= floods.len(),
            held@ == guarded_by(*plan, a, x, d as int),
        decreases floods.len() - d,
    {
        let ghost before = held@;
        let defends = plan.defends(attacker, d);
        if defends {
            held = held.union(&floods[d]);
        }
        assert forall|c: Coordinate|
            guarded_by(*plan, a, x, d + 1).contains(c) <==> before.contains(c) || (defends
                && x[d as int].contains(c)) by {
            if before.contains(c) {
                let w = choose|w: int| 0 <= w < d && plan.opposes(a, w) && (#[trigger] x[w]).contains(c);
                assert(x[w].contains(c));
            }
        }
        d += 1;
        assert(held@ =~= guarded_by(*plan, a, x, d as int));
    }
    assert(held@ =~= guarded(*plan, a, x));
    held
}

/// The floods one step on after the attacker and the defenders have given
/// way to each other: the attacker keeps off the cells that the defenders
/// could have reached before; the defenders keep off the cells that are left
/// to the attacker; and the attacker keeps off what is then left to the
/// defenders.
pub open spec fn settled(plan: Scenario, a: int, x: Floods, y: Floods) -> Floods {
    let first = y[a].difference(guarded(plan, a, x));
    let parted = yielded(plan, a, y, first);
    parted.update(a, first.difference(guarded(plan, a, parted)))
}

/// The floods after the defenders have given way to the attacker, to which
/// the cells of `first` are left.
pub open spec fn yielded(plan: Scenario, a: int, y: Floods, first: Set<Coordinate>) -> Floods {
    Seq::new(
        y.len(),
        |i: int|
            if i == a {
                first
            } else if plan.opposes(a, i) {
                y[i].difference(first)
            } else {
                y[i]
            },
    )
}

/// Lets the attacker and the defenders give way to each other: `x` holds the
/// floods before the step and `y` the floods after it.
pub fn settle(plan: &Scenario, attacker: usize, x: &Vec<CellSet>, y: &Vec<CellSet>) -> (z: Vec<CellSet>)
    requires
        attacker < plan.names.len(),
        x.len() == plan.names.len(),
        y.len() == plan.names.len(),
    ensures
        z.len() == plan.names.len(),
        floods_of(z@) == settled(*plan, attacker as int, floods_of(x@), floods_of(y@)),
{
    let ghost a = attacker as int;
    let before = guard_cells(plan, attacker, x);
    let first = y[attacker].difference(&before);
    assert(y[attacker as int]@ == floods_of(y@)[a]);
    let mut parted: Vec<CellSet> = Vec::new();
    let mut i: usize = 0;
    while i < y.len()
        invariant
            attacker < plan.names.len(),
            a == attacker,
            y.len() == plan.names.len(),
            i <= y.len(),
            parted.len() == i,
            forall|k: int|
                0 <= k < i ==> (#[trigger] parted[k])@ == if k == a {
                    first@
                } else if plan.opposes(a, k) {
                    y[k]@.difference(first@)
                } else {
                    y[k]@
                },
        decreases y.len() - i,
    {
        if i == attacker {
            parted.push(first.copy());
        } else if plan.defends(attacker, i) {
            parted.push(y[i].difference(&first));
        } else {
            parted.push(y[i].copy());
        }
        i += 1;
    }
    let ghost wanted = yielded(*plan, a, floods_of(y@), first@);
    assert(floods_of(parted@) =~= wanted);
    let after = guard_cells(plan, attacker, &parted);
    let last = first.difference(&after);
    let mut z: Vec<CellSet> = Vec::new();
    let mut i: usize = 0;
    while i < parted.len()
        invariant
            attacker < plan.names.len(),
            a == attacker,
            parted.len() == plan.names.len(),
            i <= parted.len(),
            z.len() == i,
            forall|k: int|
                0 <= k < i ==> (#[trigger] z[k])@ == if k == a {
                    last@
                } else {
                    parted[k]@
                },
        decreases parted.len() - i,
    {
        if i == attacker {
            z.push(last.copy());
        } else {
            z.push(parted[i].copy());
        }
        i += 1;
    }
    assert(floods_of(z@) =~= wanted.update(a, last@));
    z
}

/// The flood of agent `i` has a dead end.
pub open spec fn halts(
    plan: Scenario,
    edges: Set<(Node, Node)>,
    blocked: Set<Coordinate>,
    x: Floods,
    curr: int,
    fut: int,
    i: int,
) -> bool {
    0 <= i < x.len() && stuck(plan, edges, blocked, x[i], curr, fut, false) != Set::<Coordinate>::empty()
}

/// Agent `i` is the first whose flood has a dead end.
pub open spec fn halts_first(
    plan: Scenario,
    edges: Set<(Node, Node)>,
    blocked: Set<Coordinate>,
    x: Floods,
    curr: int,
    fut: int,
    i: int,
) -> bool {
    halts(plan, edges, blocked, x, curr, fut, i) && forall|k: int|
        0 <= k < i ==> !halts(plan, edges, blocked, x, curr, fut, k)
}

/// The first agent whose flood has a dead end is unique.
proof fn lemma_halts_first(
    plan: Scenario,
    edges: Set<(Node, Node)>,
    blocked: Set<Coordinate>,
    x: Floods,
    curr: int,
    fut: int,
    i: int,
)
    requires
        halts_first(plan, edges, blocked, x, curr, fut, i),
    ensures
        (choose|k: int| halts_first(plan, edges, blocked, x, curr, fut, k)) == i,
{
    let k = choose|k: int| halts_first(plan, edges, blocked, x, curr, fut, k);
    assert(halts_first(plan, edges, blocked, x, curr, fut, k));
    if k < i {
        assert(!halts(plan, edges, blocked, x, curr, fut, k));
    } else if i < k {
        assert(!halts(plan, edges, blocked, x, curr, fut, i));
    }
}

/// Every flood one step on, before the agents give way to each other.
pub open spec fn grown(
    plan: Scenario,
    edges: Set<(Node, Node)>,
    blocked: Set<Coordinate>,
    x: Floods,
    curr: int,
    fut: int,
) -> Floods {
    Seq::new(x.len(), |i: int| flooded(plan, edges, blocked, x[i], curr, fut, false))
}

/// The floods one step on, from the time `fut` to `fut + 1`; none where the
/// flood of some agent has a dead end.
pub open spec fn advanced(
    plan: Scenario,
    edges: Set<(Node, Node)>,
    conflicts: Set<TimedCoordinate>,
    a: int,
    x: Floods,
    curr: int,
    fut: int,
) -> Option<Floods> {
    let blocked = cells_at(conflicts, fut + 1);
    if exists|i: int| halts(plan, edges, blocked, x, curr, fut, i) {
        None
    } else {
        Some(settled(plan, a, x, grown(plan, edges, blocked, x, curr, fut)))
    }
}

/// The conflicts after the floods have been taken one step on: where the
/// flood of some agent has a dead end, the first dead end of the first such
/// agent has joined them.
pub open spec fn conflicts_advanced(
    plan: Scenario,
    edges: Set<(Node, Node)>,
    conflicts: Set<TimedCoordinate>,
    x: Floods,
    curr: int,
    fut: int,
) -> Set<TimedCoordinate> {
    let blocked = cells_at(conflicts, fut + 1);
    if exists|i: int| halts(plan, edges, blocked, x, curr, fut, i) {
        let i = choose|i: int| halts_first(plan, edges, blocked, x, curr, fut, i);
        conflicts_after(plan, edges, conflicts, x[i], curr, fut, false)
    } else {
        conflicts
    }
}

/// Takes the floods of all agents one step on, from the time `fut` to
/// `fut + 1`, and lets the attacker and the defenders give way to each other.
/// Where the flood of some agent has a dead end, the step fails and the dead
/// end joins the conflicts.
pub fn advance(
    plan: &Scenario,
    g: &TimeGraph,
    attacker: usize,
    x: &Vec<CellSet>,
    curr: usize,
    fut: usize,
    conflicts: &mut TimedSet,
) -> (next: Option<Vec<CellSet>>)
    requires
        plan.wf(),
        attacker < plan.names.len(),
        x.len() == plan.names.len(),
        curr <= plan.makespan,
        fut < usize::MAX,
    ensures
        final(conflicts)@ == conflicts_advanced(
            *plan,
            g.edges(),
            old(conflicts)@,
            floods_of(x@),
            curr as int,
            fut as int,
        ),
        match next {
            Some(z) => z.len() == plan.names.len() && advanced(
                *plan,
                g.edges(),
                old(conflicts)@,
                attacker as int,
                floods_of(x@),
                curr as int,
                fut as int,
            ) == Some(floods_of(z@)),
            None => advanced(
                *plan,
                g.edges(),
                old(conflicts)@,
                attacker as int,
                floods_of(x@),
                curr as int,
                fut as int,
            ) is None,
        },
{
    let ghost edges = g.edges();
    let ghost floods = floods_of(x@);
    let ghost blocked = cells_at(conflicts@, fut + 1);
    let mut y: Vec<CellSet> = Vec::new();
    let mut i: usize = 0;
    while i < x.len()
        invariant
            plan.wf(),
            attacker < plan.names.len(),
            x.len() == plan.names.len(),
            curr <= plan.makespan,
            fut < usize::MAX,
            edges == g.edges(),
            floods == floods_of(x@),
            conflicts@ == old(conflicts)@,
            blocked == cells_at(old(conflicts)@, fut + 1),
            i <= x.len(),
            y.len() == i,
            forall|k: int| 0 <= k < i ==> !halts(*plan, edges, blocked, floods, curr as int, fut as int, k),
            forall|k: int|
                0 <= k < i ==> (#[trigger] y[k])@ == flooded(
                    *plan,
                    edges,
                    blocked,
                    floods[k],
                    curr as int,
                    fut as int,
                    false,
                ),
        decreases x.len() - i,
    {
        assert(x[i as int]@ == floods[i as int]);
        match reachable(plan, g, &x[i], curr, fut, conflicts, false) {
            Ok(flood) => {
                y.push(flood);
            },
            Err(_) => {
                proof {
                    assert(halts_first(*plan, edges, blocked, floods, curr as int, fut as int, i as int));
                    lemma_halts_first(*plan, edges, blocked, floods, curr as int, fut as int, i as int);
                }
                return None;
            },
        }
        i += 1;
    }
    assert(floods_of(y@) =~= grown(*plan, edges, blocked, floods, curr as int, fut as int));
    Some(settle(plan, attacker, x, &y))
}

/// The floods of a root, offset by offset.
pub open spec fn history_of(xs: Seq<Vec<CellSet>>) -> Seq<Floods> {
    Seq::new(xs.len(), |k: int| floods_of(xs[k]@))
}

/// Follows the attacker from the time `u` to the time `end` of a root that
/// starts at the time `start`: `roaming` holds the cells that it can have
/// reached unobserved, and `returning` those that it can have reached
/// unobserved after it has stood on the safe cell. At each step both floods
/// go one step on, in attacker mode, and lose the cells that the defenders
/// can observe; where the attacker can then stand on the safe cell, the safe
/// cell joins the second flood. The result is the conflicts and the second
/// flood at the end, or as soon as both floods are empty.
pub open spec fn attack(
    plan: Scenario,
    edges: Set<(Node, Node)>,
    a: int,
    safe: Coordinate,
    conflicts: Set<TimedCoordinate>,
    roaming: Set<Coordinate>,
    returning: Set<Coordinate>,
    xs: Seq<Floods>,
    start: int,
    u: int,
    end: int,
) -> (Set<TimedCoordinate>, Set<Coordinate>)
    decreases end - u,
{
    if u >= end {
        (conflicts, returning)
    } else {
        let first = conflicts_after(plan, edges, conflicts, roaming, start, u, true);
        let spread = flooded(plan, edges, cells_at(conflicts, u + 1), roaming, start, u, true);
        let second = conflicts_after(plan, edges, first, returning, start, u, true);
        let carried = flooded(plan, edges, cells_at(first, u + 1), returning, start, u, true);
        let seen = observable(plan, a, xs[u - start]);
        let out = spread.difference(seen);
        let back = if out.contains(safe) {
            carried.difference(seen).insert(safe)
        } else {
            carried.difference(seen)
        };
        if out == Set::<Coordinate>::empty() && back == Set::<Coordinate>::empty() {
            (second, back)
        } else {
            attack(plan, edges, a, safe, second, out, back, xs, start, u + 1, end)
        }
    }
}

/// Whether the attacker, starting at the time `start` from where it can
/// then be, can have stood on the safe cell and be on the cell `obs` at the
/// time `end`, unobserved all the while.
pub fn attack_exists(
    plan: &Scenario,
    g: &TimeGraph,
    attacker: usize,
    safe: &Coordinate,
    start: usize,
    end: usize,
    obs: Coordinate,
    history: &Vec<Vec<CellSet>>,
    conflicts: &mut TimedSet,
) -> (found: bool)
    requires
        plan.wf(),
        attacker < plan.names.len(),
        start <= plan.makespan,
        start <= end < usize::MAX,
        history.len() > end - start,
        forall|k: int| 0 <= k < history.len() ==> (#[trigger] history[k]).len() == plan.names.len(),
    ensures
        ({
            let (after, back) = attack(
                *plan,
                g.edges(),
                attacker as int,
                *safe,
                old(conflicts)@,
                history_of(history@)[0][attacker as int],
                Set::<Coordinate>::empty(),
                history_of(history@),
                start as int,
                start as int,
                end as int,
            );
            found == back.contains(obs) && final(conflicts)@ == after
        }),
{
    let ghost a = attacker as int;
    let ghost edges = g.edges();
    let ghost xs = history_of(history@);
    let ghost wanted = attack(
        *plan,
        edges,
        a,
        *safe,
        conflicts@,
        xs[0][a],
        Set::<Coordinate>::empty(),
        xs,
        start as int,
        start as int,
        end as int,
    );
    assert(history[0]@[a]@ == xs[0][a]);
    let mut roaming = history[0][attacker].copy();
    let mut returning = CellSet::new();
    let mut u: usize = start;
    while u < end
        invariant
            plan.wf(),
            a == attacker,
            attacker < plan.names.len(),
            start <= plan.makespan,
            start <= u <= end < usize::MAX,
            history.len() > end - start,
            forall|k: int| 0 <= k < history.len() ==> (#[trigger] history[k]).len() == plan.names.len(),
            edges == g.edges(),
            xs == history_of(history@),
            wanted == attack(
                *plan,
                edges,
                a,
                *safe,
                old(conflicts)@,
                xs[0][a],
                Set::<Coordinate>::empty(),
                xs,
                start as int,
                start as int,
                end as int,
            ),
            attack(
                *plan,
                edges,
                a,
                *safe,
                conflicts@,
                roaming@,
                returning@,
                xs,
                start as int,
                u as int,
                end as int,
            ) == wanted,
        decreases end - u,
    {
        let spread = match reachable(plan, g, &roaming, start, u, conflicts, true) {
            Ok(spread) => spread,
            Err(_) => CellSet::new(),
        };
        let carried = match reachable(plan, g, &returning, start, u, conflicts, true) {
            Ok(carried) => carried,
            Err(_) => CellSet::new(),
        };
        assert(floods_of(history[u - start]@) == xs[u - start]);
        let seen = defender_observed(plan, attacker, &history[u - start]);
        roaming = spread.difference(&seen);
        returning = carried.difference(&seen);
        if roaming.contains(safe) {
            returning.insert(*safe);
        }
        if roaming.is_empty() && returning.is_empty() {
            return returning.contains(&obs);
        }
        u += 1;
    }
    returning.contains(&obs)
}

/// What the analysis of one root comes to.
#[derive(Debug, Eq, Copy, Clone, PartialEq, Structural)]
pub enum Finding {
    /// The attacker can reach the safe cell unobserved, or is stuck.
    Exposed,
    /// No attack starts at this root.
    Passed,
    /// The steps that were granted did not suffice.
    Undecided,
}

/// Where every agent can be at time `t` by its plan.
pub open spec fn initial(plan: Scenario, t: int) -> Floods {
    Seq::new(plan.names.len() as nat, |i: int| set![plan.paths[i][t]])
}

/// The analysis of the root `t`, from the floods `xs` that it has reached,
/// with `fuel` steps left: the finding, the conflicts and the steps that are
/// then left.
///
/// Where the attacker's flood has come to cells that the defenders can
/// observe, the first of these cells decides: the root is exposed where the
/// attacker can have stood on the safe cell and be there. Else the floods go
/// one step on. Where a flood has a dead end, the root starts again, with one
/// more conflict; where the attacker's flood does not change, the attacker
/// is stuck and the root is exposed.
pub open spec fn probing(
    plan: Scenario,
    edges: Set<(Node, Node)>,
    a: int,
    safe: Coordinate,
    conflicts: Set<TimedCoordinate>,
    t: int,
    xs: Seq<Floods>,
    fuel: nat,
) -> (Finding, Set<TimedCoordinate>, nat)
    decreases fuel,
{
    let s = xs.len() - 1;
    let x = xs.last();
    let seen = observable(plan, a, x);
    if !x[a].disjoint(seen) {
        let p = first_cell(x[a].intersect(seen));
        let (after, back) = attack(
            plan,
            edges,
            a,
            safe,
            conflicts,
            xs[0][a],
            Set::<Coordinate>::empty(),
            xs,
            t,
            t,
            t + s,
        );
        (
            if back.contains(p) {
                Finding::Exposed
            } else {
                Finding::Passed
            },
            after,
            fuel,
        )
    } else if fuel == 0 || t + s + 1 >= usize::MAX {
        (Finding::Undecided, conflicts, fuel)
    } else {
        match advanced(plan, edges, conflicts, a, x, t, t + s) {
            None => probing(
                plan,
                edges,
                a,
                safe,
                conflicts_advanced(plan, edges, conflicts, x, t, t + s),
                t,
                xs.take(1),
                (fuel - 1) as nat,
            ),
            Some(z) => if z[a] == x[a] {
                (Finding::Exposed, conflicts, (fuel - 1) as nat)
            } else {
                probing(plan, edges, a, safe, conflicts, t, xs.push(z), (fuel - 1) as nat)
            },
        }
    }
}

/// The floods at the root `t`: every agent where its plan has it.
fn initial_floods(plan: &Scenario, t: usize) -> (x: Vec<CellSet>)
    requires
        plan.wf(),
        t <= plan.makespan,
    ensures
        x.len() == plan.names.len(),
        floods_of(x@) == initial(*plan, t as int),
{
    let mut x: Vec<CellSet> = Vec::new();
    let mut i: usize = 0;
    while i < plan.names.len()
        invariant
            plan.wf(),
            t <= plan.makespan,
            i <= plan.names.len(),
            x.len() == i,
            forall|k: int| 0 <= k < i ==> (#[trigger] x[k])@ == set![plan.paths[k][t as int]],
        decreases plan.names.len() - i,
    {
        let mut only = CellSet::new();
        only.insert(plan.paths[i][t]);
        assert(only@ =~= set![plan.paths[i as int][t as int]]);
        x.push(only);
        i += 1;
    }
    assert(floods_of(x@) =~= initial(*plan, t as int));
    x
}

/// Analyses the root `t` with no more than `fuel` steps; gives the finding
/// and the steps that are left.
pub fn probe(
    plan: &Scenario,
    g: &TimeGraph,
    attacker: usize,
    safe: &Coordinate,
    t: usize,
    conflicts: &mut TimedSet,
    fuel: usize,
) -> (res: (Finding, usize))
    requires
        plan.wf(),
        attacker < plan.names.len(),
        t <= plan.makespan,
    ensures
        ({
            let (finding, after, left) = probing(
                *plan,
                g.edges(),
                attacker as int,
                *safe,
                old(conflicts)@,
                t as int,
                seq![initial(*plan, t as int)],
                fuel as nat,
            );
            res.0 == finding && final(conflicts)@ == after && res.1 == left
        }),
{
    let ghost a = attacker as int;
    let ghost edges = g.edges();
    let ghost wanted = probing(
        *plan,
        edges,
        a,
        *safe,
        conflicts@,
        t as int,
        seq![initial(*plan, t as int)],
        fuel as nat,
    );
    let mut left = fuel;
    let mut xs: Vec<Vec<CellSet>> = Vec::new();
    xs.push(initial_floods(plan, t));
    assert(history_of(xs@) =~= seq![initial(*plan, t as int)]);
    loop
        invariant
            plan.wf(),
            a == attacker,
            attacker < plan.names.len(),
            t <= plan.makespan,
            edges == g.edges(),
            1 <= xs.len() <= usize::MAX - t,
            forall|k: int| 0 <= k < xs.len() ==> (#[trigger] xs[k]).len() == plan.names.len(),
            wanted == probing(
                *plan,
                edges,
                a,
                *safe,
                old(conflicts)@,
                t as int,
                seq![initial(*plan, t as int)],
                fuel as nat,
            ),
            probing(*plan, edges, a, *safe, conflicts@, t as int, history_of(xs@), left as nat)
                == wanted,
        decreases left,
    {
        let s = xs.len() - 1;
        let ghost x = history_of(xs@).last();
        assert(floods_of(xs[s as int]@) == x);
        assert(xs[s as int]@[a]@ == x[a]);
        assert(xs[0]@[a]@ == history_of(xs@)[0][a]);
        let seen = defender_observed(plan, attacker, &xs[s]);
        match xs[s][attacker].first_common(&seen) {
            Some(p) => {
                proof {
                    lemma_first_cell(x[a].intersect(seen@), p);
                    assert(x[a].intersect(seen@).contains(p));
                }
                let found = attack_exists(plan, g, attacker, safe, t, t + s, p, &xs, conflicts);
                if found {
                    return (Finding::Exposed, left);
                } else {
                    return (Finding::Passed, left);
                }
            },
            None => {},
        }
        if left == 0 || s >= usize::MAX - t - 1 {
            return (Finding::Undecided, left);
        }
        left -= 1;
        let next = advance(plan, g, attacker, &xs[s], t, t + s, conflicts);
        match next {
            None => {
                let ghost before = history_of(xs@);
                xs.truncate(1);
                assert(history_of(xs@) =~= before.take(1));
            },
            Some(z) => {
                assert(z@[a]@ == floods_of(z@)[a]);
                if xs[s][attacker].same(&z[attacker]) {
                    return (Finding::Exposed, left);
                }
                let ghost before = history_of(xs@);
                xs.push(z);
                assert(history_of(xs@) =~= before.push(floods_of(z@)));
            },
        }
    }
}

/// The timesteps of the graph that the floods move on: those up to the
/// makespan, and at least those up to 2, so that every passable cell has its
/// moves at timestep 1.
pub open spec fn depth(plan: Scenario) -> int {
    if plan.makespan < 2 {
        2
    } else {
        plan.makespan as int
    }
}

/// The edges of the graph that is built for a scenario and a safe cell.
pub open spec fn built_edges(plan: Scenario, safe: Coordinate) -> Set<(Node, Node)> {
    Set::new(|e: (Node, Node)| is_edge(plan.map, safe, depth(plan), e.0, e.1))
}

/// The verdict on the roots from `t` on, with `fuel` steps left: whether the
/// pair of the attacker and the safe cell is secure, or nothing where the
/// steps do not suffice. The pair is secure where no root up to the makespan
/// is exposed.
pub open spec fn sweeping(
    plan: Scenario,
    edges: Set<(Node, Node)>,
    a: int,
    safe: Coordinate,
    conflicts: Set<TimedCoordinate>,
    t: int,
    fuel: nat,
) -> Option<bool>
    decreases plan.makespan + 1 - t,
{
    if t > plan.makespan {
        Some(true)
    } else {
        let (finding, after, left) = probing(
            plan,
            edges,
            a,
            safe,
            conflicts,
            t,
            seq![initial(plan, t)],
            fuel,
        );
        match finding {
            Finding::Exposed => Some(false),
            Finding::Undecided => None,
            Finding::Passed => sweeping(plan, edges, a, safe, after, t + 1, left),
        }
    }
}

/// The cautious analysis of one attacker and one safe cell, with no more
/// than `budget` steps of the floods: whether no deviation of the attacker
/// can reach the safe cell before a defender can observe it.
pub fn cautious_verdict(plan: &Scenario, attacker: usize, safe: &Coordinate, budget: usize) -> (secured:
    Option<bool>)
    requires
        plan.wf(),
        attacker < plan.names.len(),
    ensures
        secured == sweeping(
            *plan,
            built_edges(*plan, *safe),
            attacker as int,
            *safe,
            Set::<TimedCoordinate>::empty(),
            0,
            budget as nat,
        ),
{
    let ghost a = attacker as int;
    let levels: usize = if plan.makespan < 2 {
        2
    } else {
        plan.makespan
    };
    let g = build_graph(&plan.map, levels, safe);
    let ghost edges = g.edges();
    assert(edges =~= built_edges(*plan, *safe));
    let mut conflicts = TimedSet::new();
    let mut fuel = budget;
    let ghost wanted = sweeping(*plan, edges, a, *safe, conflicts@, 0, fuel as nat);
    let mut t: usize = 0;
    while t <= plan.makespan
        invariant
            plan.wf(),
            a == attacker,
            attacker < plan.names.len(),
            edges == g.edges(),
            t <= plan.makespan + 1,
            edges == built_edges(*plan, *safe),
            wanted == sweeping(
                *plan,
                edges,
                a,
                *safe,
                Set::<TimedCoordinate>::empty(),
                0,
                budget as nat,
            ),
            sweeping(*plan, edges, a, *safe, conflicts@, t as int, fuel as nat) == wanted,
        decreases plan.makespan + 1 - t,
    {
        let (finding, left) = probe(plan, &g, attacker, safe, t, &mut conflicts, fuel);
        match finding {
            Finding::Exposed => {
                return Some(false);
            },
            Finding::Undecided => {
                return None;
            },
            Finding::Passed => {},
        }
        fuel = left;
        t += 1;
    }
    Some(true)
}

} // verus!
