//! The time-expanded grid graph: a node for each passable cell at each
//! timestep, and an edge for each move, or wait, from one timestep to the
//! next.

use crate::inputs::{Coordinate, GridMap};
use crate::table::in_grid;
use petgraph::graphmap::DiGraphMap;
use petgraph::graphmap::GraphMap;
use petgraph::Directed;
use std::hash::BuildHasher;
use vstd::prelude::*;

verus! {

/// `petgraph::graphmap::GraphMap`, carried as a value that nothing is known
/// of but through the functions below.
#[verifier::external_type_specification]
#[verifier::external_body]
#[verifier::reject_recursive_types(N)]
#[verifier::reject_recursive_types(E)]
#[verifier::reject_recursive_types(Ty)]
#[verifier::reject_recursive_types(S)]
pub struct ExGraphMap<N, E, Ty, S: BuildHasher>(GraphMap<N, E, Ty, S>);

/// `petgraph::Directed`, the marker of graphs with directed edges.
#[verifier::external_type_specification]
#[verifier::external_body]
pub struct ExDirected(Directed);

/// A node of the time-expanded graph: column, row and timestep.
pub type Node = (u16, u16, usize);

/// The nodes that a graph holds.
pub uninterp spec fn graph_nodes(g: DiGraphMap<(u16, u16, usize), ()>) -> Set<(u16, u16, usize)>;

/// The directed edges that a graph holds, each as source and target.
pub uninterp spec fn graph_edges(g: DiGraphMap<(u16, u16, usize), ()>) -> Set<
    ((u16, u16, usize), (u16, u16, usize)),
>;

/// `GraphMap::new`: a graph without nodes or edges.
#[verifier::external_body]
fn graph_new() -> (g: DiGraphMap<(u16, u16, usize), ()>)
    ensures
        graph_nodes(g) == Set::<Node>::empty(),
        graph_edges(g) == Set::<(Node, Node)>::empty(),
{
    DiGraphMap::new()
}

/// `GraphMap::add_node`: the node joins the graph; the edges stay.
#[verifier::external_body]
fn graph_add_node(g: &mut DiGraphMap<(u16, u16, usize), ()>, n: Node)
    ensures
        graph_nodes(*final(g)) == graph_nodes(*old(g)).insert(n),
        graph_edges(*final(g)) == graph_edges(*old(g)),
{
    g.add_node(n);
}

/// `GraphMap::add_edge`: the edge from `a` to `b` joins the graph, and with
/// it the two nodes where the graph did not hold them yet.
#[verifier::external_body]
fn graph_add_edge(g: &mut DiGraphMap<(u16, u16, usize), ()>, a: Node, b: Node)
    ensures
        graph_nodes(*final(g)) == graph_nodes(*old(g)).insert(a).insert(b),
        graph_edges(*final(g)) == graph_edges(*old(g)).insert((a, b)),
{
    g.add_edge(a, b, ());
}

/// `GraphMap::remove_node`: the node leaves the graph, and with it every
/// edge that starts or ends there.
#[verifier::external_body]
fn graph_remove_node(g: &mut DiGraphMap<(u16, u16, usize), ()>, n: Node)
    ensures
        graph_nodes(*final(g)) == graph_nodes(*old(g)).remove(n),
        graph_edges(*final(g)) == graph_edges(*old(g)).filter(|e: (Node, Node)| e.0 != n && e.1 != n),
{
    g.remove_node(n);
}

/// `GraphMap::remove_edge`: the edge from `a` to `b` leaves the graph; the
/// nodes stay.
#[verifier::external_body]
fn graph_remove_edge(g: &mut DiGraphMap<(u16, u16, usize), ()>, a: Node, b: Node)
    ensures
        graph_nodes(*final(g)) == graph_nodes(*old(g)),
        graph_edges(*final(g)) == graph_edges(*old(g)).remove((a, b)),
{
    g.remove_edge(a, b);
}

/// `GraphMap::contains_node`: whether the graph holds the node.
#[verifier::external_body]
fn graph_contains_node(g: &DiGraphMap<(u16, u16, usize), ()>, n: Node) -> (b: bool)
    ensures
        b == graph_nodes(*g).contains(n),
{
    g.contains_node(n)
}

/// `GraphMap::neighbors`: the targets of the edges that start at `n`, each
/// once, in no stated order.
#[verifier::external_body]
fn graph_neighbors(g: &DiGraphMap<(u16, u16, usize), ()>, n: Node) -> (out: Vec<Node>)
    ensures
        out@.no_duplicates(),
        forall|m: Node| out@.contains(m) <==> graph_edges(*g).contains((n, m)),
{
    g.neighbors(n).collect()
}

/// The cell of a node.
pub open spec fn cell_of(n: Node) -> Coordinate {
    Coordinate { x: n.0, y: n.1 }
}

/// A time-expanded graph.
pub struct TimeGraph {
    pub(crate) map: DiGraphMap<(u16, u16, usize), ()>,
}

impl TimeGraph {
    /// The nodes of the graph.
    pub closed spec fn nodes(&self) -> Set<Node> {
        graph_nodes(self.map)
    }

    /// The edges of the graph, each as source and target.
    pub closed spec fn edges(&self) -> Set<(Node, Node)> {
        graph_edges(self.map)
    }

    /// A graph without nodes or edges.
    pub fn new() -> (g: TimeGraph)
        ensures
            g.nodes() == Set::<Node>::empty(),
            g.edges() == Set::<(Node, Node)>::empty(),
    {
        TimeGraph { map: graph_new() }
    }

    /// Adds a node; the edges stay.
    pub fn add_node(&mut self, n: Node)
        ensures
            final(self).nodes() == old(self).nodes().insert(n),
            final(self).edges() == old(self).edges(),
    {
        graph_add_node(&mut self.map, n);
    }

    /// Adds the edge from `a` to `b`, and the two nodes where they are
    /// missing.
    pub fn add_edge(&mut self, a: Node, b: Node)
        ensures
            final(self).nodes() == old(self).nodes().insert(a).insert(b),
            final(self).edges() == old(self).edges().insert((a, b)),
    {
        graph_add_edge(&mut self.map, a, b);
    }

    /// Removes a node and every edge that starts or ends there.
    pub fn remove_node(&mut self, n: Node)
        ensures
            final(self).nodes() == old(self).nodes().remove(n),
            final(self).edges() == old(self).edges().filter(|e: (Node, Node)| e.0 != n && e.1 != n),
    {
        graph_remove_node(&mut self.map, n);
    }

    /// Removes the edge from `a` to `b`; the nodes stay.
    pub fn remove_edge(&mut self, a: Node, b: Node)
        ensures
            final(self).nodes() == old(self).nodes(),
            final(self).edges() == old(self).edges().remove((a, b)),
    {
        graph_remove_edge(&mut self.map, a, b);
    }

    /// Whether the graph holds the node.
    pub fn contains_node(&self, n: Node) -> (b: bool)
        ensures
            b == self.nodes().contains(n),
    {
        graph_contains_node(&self.map, n)
    }

    /// The targets of the edges that start at `n`, each once.
    pub fn neighbors(&self, n: Node) -> (out: Vec<Node>)
        ensures
            out@.no_duplicates(),
            forall|m: Node| out@.contains(m) <==> self.edges().contains((n, m)),
    {
        graph_neighbors(&self.map, n)
    }
}

/// A cell that can be entered: on the grid, and no obstacle unless it is the
/// safe cell under analysis.
pub open spec fn passable(map: GridMap, safe: Coordinate, c: Coordinate) -> bool {
    in_grid(map.dimensions, c) && (c == safe || !map.obstacles@.contains(c))
}

/// A node of the graph that is built for a map, a makespan and a safe cell.
pub open spec fn is_node(map: GridMap, safe: Coordinate, makespan: int, n: Node) -> bool {
    n.2 <= makespan && passable(map, safe, cell_of(n))
}

/// An edge of the graph that is built for a map, a makespan and a safe cell:
/// from a node to a node on the same or a neighbouring cell, one timestep
/// later.
pub open spec fn is_edge(map: GridMap, safe: Coordinate, makespan: int, a: Node, b: Node) -> bool {
    &&& is_node(map, safe, makespan, a)
    &&& is_node(map, safe, makespan, b)
    &&& a.2 + 1 == b.2
    &&& cell_of(a).near(cell_of(b))
}

/// A move on the bare grid from `a` to `b`, one timestep later.
pub open spec fn grid_move(dims: Coordinate, a: Node, b: Node) -> bool {
    &&& in_grid(dims, cell_of(a))
    &&& in_grid(dims, cell_of(b))
    &&& a.2 + 1 == b.2
    &&& cell_of(a).near(cell_of(b))
}

/// The node `n` comes before the cell `(x, y)` at time `t`, counting through
/// the timesteps, within each through the columns, within each through the
/// rows.
pub open spec fn before(n: Node, t: int, x: int, y: int) -> bool {
    n.2 < t || (n.2 == t && (n.0 < x || (n.0 == x && n.1 < y)))
}

/// Adds the node of the cell `(x, y)` at time `t` and the moves that lead to
/// it from the timestep before.
fn add_cell(g: &mut TimeGraph, dims: Coordinate, x: u16, y: u16, t: usize)
    requires
        x < dims.x,
        y < dims.y,
    ensures
        final(g).nodes() == old(g).nodes().insert((x, y, t)).union(
            Set::new(|n: Node| grid_move(dims, n, (x, y, t))),
        ),
        final(g).edges() == old(g).edges().union(
            Set::new(|e: (Node, Node)| e.1 == (x, y, t) && grid_move(dims, e.0, e.1)),
        ),
{
    let here: Node = (x, y, t);
    g.add_node(here);
    if t > 0 {
        g.add_edge((x, y, (t - 1) as usize), here);
        if x > 0 {
            g.add_edge(((x - 1) as u16, y, (t - 1) as usize), here);
        }
        if x + 1 < dims.x {
            g.add_edge(((x + 1) as u16, y, (t - 1) as usize), here);
        }
        if y > 0 {
            g.add_edge((x, (y - 1) as u16, (t - 1) as usize), here);
        }
        if y + 1 < dims.y {
            g.add_edge((x, (y + 1) as u16, (t - 1) as usize), here);
        }
    }
    assert(g.nodes() =~= old(g).nodes().insert((x, y, t)).union(
        Set::new(|n: Node| grid_move(dims, n, (x, y, t))),
    ));
    assert(g.edges() =~= old(g).edges().union(
        Set::new(|e: (Node, Node)| e.1 == (x, y, t) && grid_move(dims, e.0, e.1)),
    ));
}

/// The graph of the bare grid: every cell at every timestep up to the
/// makespan, and every move between them.
fn grid_graph(dims: Coordinate, makespan: usize) -> (g: TimeGraph)
    requires
        makespan < usize::MAX,
    ensures
        g.nodes() == Set::new(|n: Node| in_grid(dims, cell_of(n)) && n.2 <= makespan),
        g.edges() == Set::new(|e: (Node, Node)| grid_move(dims, e.0, e.1) && e.1.2 <= makespan),
{
    let mut g = TimeGraph::new();
    let mut t: usize = 0;
    assert(g.nodes() =~= Set::new(|n: Node| in_grid(dims, cell_of(n)) && before(n, 0, 0, 0)));
    assert(g.edges() =~= Set::new(
        |e: (Node, Node)| grid_move(dims, e.0, e.1) && before(e.1, 0, 0, 0),
    ));
    while t <= makespan
        invariant
            makespan < usize::MAX,
            t <= makespan + 1,
            g.nodes() == Set::new(|n: Node| in_grid(dims, cell_of(n)) && before(n, t as int, 0, 0)),
            g.edges() == Set::new(
                |e: (Node, Node)| grid_move(dims, e.0, e.1) && before(e.1, t as int, 0, 0),
            ),
        decreases makespan + 1 - t,
    {
        let mut x: u16 = 0;
        while x < dims.x
            invariant
                t <= makespan,
                x <= dims.x,
                g.nodes() == Set::new(
                    |n: Node| in_grid(dims, cell_of(n)) && before(n, t as int, x as int, 0),
                ),
                g.edges() == Set::new(
                    |e: (Node, Node)| grid_move(dims, e.0, e.1) && before(e.1, t as int, x as int, 0),
                ),
            decreases dims.x - x,
        {
            let mut y: u16 = 0;
            while y < dims.y
                invariant
                    t <= makespan,
                    x < dims.x,
                    y <= dims.y,
                    g.nodes() == Set::new(
                        |n: Node| in_grid(dims, cell_of(n)) && before(n, t as int, x as int, y as int),
                    ),
                    g.edges() == Set::new(
                        |e: (Node, Node)|
                            grid_move(dims, e.0, e.1) && before(e.1, t as int, x as int, y as int),
                    ),
                decreases dims.y - y,
            {
                add_cell(&mut g, dims, x, y, t);
                y += 1;
                assert(g.nodes() =~= Set::new(
                    |n: Node| in_grid(dims, cell_of(n)) && before(n, t as int, x as int, y as int),
                ));
                assert(g.edges() =~= Set::new(
                    |e: (Node, Node)|
                        grid_move(dims, e.0, e.1) && before(e.1, t as int, x as int, y as int),
                ));
            }
            x += 1;
            assert(g.nodes() =~= Set::new(
                |n: Node| in_grid(dims, cell_of(n)) && before(n, t as int, x as int, 0),
            ));
            assert(g.edges() =~= Set::new(
                |e: (Node, Node)| grid_move(dims, e.0, e.1) && before(e.1, t as int, x as int, 0),
            ));
        }
        t += 1;
        assert(g.nodes() =~= Set::new(|n: Node| in_grid(dims, cell_of(n)) && before(n, t as int, 0, 0)));
        assert(g.edges() =~= Set::new(
            |e: (Node, Node)| grid_move(dims, e.0, e.1) && before(e.1, t as int, 0, 0),
        ));
    }
    assert(g.nodes() =~= Set::new(|n: Node| in_grid(dims, cell_of(n)) && n.2 <= makespan));
    assert(g.edges() =~= Set::new(
        |e: (Node, Node)| grid_move(dims, e.0, e.1) && e.1.2 <= makespan,
    ));
    g
}

/// The node `n` lies on one of the first `k` obstacles at time `t`, or on any
/// obstacle at an earlier time, and not on the safe cell.
pub open spec fn walled(obstacles: Seq<Coordinate>, safe: Coordinate, n: Node, t: int, k: int) -> bool {
    exists|j: int|
        0 <= j < obstacles.len() && #[trigger] obstacles[j] == cell_of(n) && cell_of(n) != safe && (n.2
            < t || (n.2 == t && j < k))
}

/// Builds the time-expanded graph of a map for the timesteps up to the
/// makespan: a node for each cell of the grid at each timestep, but for the
/// obstacles other than the safe cell, and an edge for each move, or wait,
/// between two such nodes from one timestep to the next.
pub fn build_graph(map: &GridMap, makespan: usize, safe: &Coordinate) -> (g: TimeGraph)
    requires
        makespan < usize::MAX,
    ensures
        g.nodes() == Set::new(|n: Node| is_node(*map, *safe, makespan as int, n)),
        g.edges() == Set::new(|e: (Node, Node)| is_edge(*map, *safe, makespan as int, e.0, e.1)),
{
    let dims = map.dimensions;
    let ghost obstacles = map.obstacles@;
    let mut g = grid_graph(dims, makespan);
    let mut t: usize = 0;
    assert(g.nodes() =~= Set::new(
        |n: Node| in_grid(dims, cell_of(n)) && n.2 <= makespan && !walled(obstacles, *safe, n, 0, 0),
    ));
    assert(g.edges() =~= Set::new(
        |e: (Node, Node)|
            grid_move(dims, e.0, e.1) && e.1.2 <= makespan && !walled(obstacles, *safe, e.0, 0, 0)
                && !walled(obstacles, *safe, e.1, 0, 0),
    ));
    while t <= makespan
        invariant
            makespan < usize::MAX,
            t <= makespan + 1,
            dims == map.dimensions,
            obstacles == map.obstacles@,
            g.nodes() == Set::new(
                |n: Node|
                    in_grid(dims, cell_of(n)) && n.2 <= makespan && !walled(
                        obstacles,
                        *safe,
                        n,
                        t as int,
                        0,
                    ),
            ),
            g.edges() == Set::new(
                |e: (Node, Node)|
                    grid_move(dims, e.0, e.1) && e.1.2 <= makespan && !walled(
                        obstacles,
                        *safe,
                        e.0,
                        t as int,
                        0,
                    ) && !walled(obstacles, *safe, e.1, t as int, 0),
            ),
        decreases makespan + 1 - t,
    {
        let mut k: usize = 0;
        while k < map.obstacles.len()
            invariant
                t <= makespan,
                k <= map.obstacles.len(),
                dims == map.dimensions,
                obstacles == map.obstacles@,
                g.nodes() == Set::new(
                    |n: Node|
                        in_grid(dims, cell_of(n)) && n.2 <= makespan && !walled(
                            obstacles,
                            *safe,
                            n,
                            t as int,
                            k as int,
                        ),
                ),
                g.edges() == Set::new(
                    |e: (Node, Node)|
                        grid_move(dims, e.0, e.1) && e.1.2 <= makespan && !walled(
                            obstacles,
                            *safe,
                            e.0,
                            t as int,
                            k as int,
                        ) && !walled(obstacles, *safe, e.1, t as int, k as int),
                ),
            decreases map.obstacles.len() - k,
        {
            let obstacle = map.obstacles[k];
            if obstacle != *safe {
                g.remove_node((obstacle.x, obstacle.y, t));
            }
            k += 1;
            assert forall|n: Node|
                walled(obstacles, *safe, n, t as int, k as int) <==> walled(
                    obstacles,
                    *safe,
                    n,
                    t as int,
                    k - 1,
                ) || (obstacle != *safe && n == (obstacle.x, obstacle.y, t)) by {
                if walled(obstacles, *safe, n, t as int, k - 1) {
                    let j = choose|j: int|
                        0 <= j < obstacles.len() && #[trigger] obstacles[j] == cell_of(n) && cell_of(n)
                            != *safe && (n.2 < t || (n.2 == t && j < k - 1));
                    assert(obstacles[j] == cell_of(n));
                }
                if obstacle != *safe && n == (obstacle.x, obstacle.y, t) {
                    assert(obstacles[k - 1] == cell_of(n));
                }
            }
            assert(g.nodes() =~= Set::new(
                |n: Node|
                    in_grid(dims, cell_of(n)) && n.2 <= makespan && !walled(
                        obstacles,
                        *safe,
                        n,
                        t as int,
                        k as int,
                    ),
            ));
            assert(g.edges() =~= Set::new(
                |e: (Node, Node)|
                    grid_move(dims, e.0, e.1) && e.1.2 <= makespan && !walled(
                        obstacles,
                        *safe,
                        e.0,
                        t as int,
                        k as int,
                    ) && !walled(obstacles, *safe, e.1, t as int, k as int),
            ));
        }
        t += 1;
        assert forall|n: Node|
            walled(obstacles, *safe, n, t as int, 0) <==> walled(
                obstacles,
                *safe,
                n,
                t - 1,
                obstacles.len() as int,
            ) by {
            if walled(obstacles, *safe, n, t as int, 0) {
                let j = choose|j: int|
                    0 <= j < obstacles.len() && #[trigger] obstacles[j] == cell_of(n) && cell_of(n)
                        != *safe && (n.2 < t || (n.2 == t && j < 0));
                assert(obstacles[j] == cell_of(n));
            }
            if walled(obstacles, *safe, n, t - 1, obstacles.len() as int) {
                let j = choose|j: int|
                    0 <= j < obstacles.len() && #[trigger] obstacles[j] == cell_of(n) && cell_of(n)
                        != *safe && (n.2 < t - 1 || (n.2 == t - 1 && j < obstacles.len()));
                assert(obstacles[j] == cell_of(n));
            }
        }
        assert(g.nodes() =~= Set::new(
            |n: Node|
                in_grid(dims, cell_of(n)) && n.2 <= makespan && !walled(obstacles, *safe, n, t as int, 0),
        ));
        assert(g.edges() =~= Set::new(
            |e: (Node, Node)|
                grid_move(dims, e.0, e.1) && e.1.2 <= makespan && !walled(
                    obstacles,
                    *safe,
                    e.0,
                    t as int,
                    0,
                ) && !walled(obstacles, *safe, e.1, t as int, 0),
        ));
    }
    assert forall|n: Node| n.2 <= makespan implies (walled(obstacles, *safe, n, makespan + 1, 0) <==> (
    obstacles.contains(cell_of(n)) && cell_of(n) != *safe)) by {
        if obstacles.contains(cell_of(n)) && cell_of(n) != *safe {
            let j = choose|j: int| 0 <= j < obstacles.len() && obstacles[j] == cell_of(n);
            assert(obstacles[j] == cell_of(n));
        }
    }
    assert(g.nodes() =~= Set::new(|n: Node| is_node(*map, *safe, makespan as int, n)));
    assert(g.edges() =~= Set::new(
        |e: (Node, Node)| is_edge(*map, *safe, makespan as int, e.0, e.1),
    ));
    g
}

} // verus!
