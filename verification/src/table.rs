//! Joint schedules as tables of cells, one row per agent and one column per
//! timestep, and the conflicts that make such a table invalid.

use crate::inputs::Coordinate;
use vstd::prelude::*;

verus! {

/// A table of cells: `table[i][t]` is where agent `i` stands at time `t`.
pub type Table = Seq<Seq<Coordinate>>;

/// The table that a vector of rows holds.
pub open spec fn rows(paths: Seq<Vec<Coordinate>>) -> Table {
    Seq::new(paths.len(), |i: int| paths[i]@)
}

/// Every row has an entry for each timestep up to and including `last`.
pub open spec fn covers(table: Table, last: int) -> bool {
    forall|i: int| 0 <= i < table.len() ==> (#[trigger] table[i]).len() > last
}

/// The cell lies within a grid of the given dimensions.
pub open spec fn in_grid(dims: Coordinate, c: Coordinate) -> bool {
    c.x < dims.x && c.y < dims.y
}

/// Two different agents stand on one cell at time `t`.
pub open spec fn vertex_conflict(table: Table, t: int) -> bool {
    exists|i: int, j: int|
        #![trigger table[i], table[j]]
        0 <= i < j < table.len() && table[i][t] == table[j][t]
}

/// Some agent stands outside the grid at time `t`.
pub open spec fn off_grid(table: Table, dims: Coordinate, t: int) -> bool {
    exists|i: int| 0 <= i < table.len() && !in_grid(dims, (#[trigger] table[i])[t])
}

/// Some agent moves further than one step between `t` and `t + 1`.
pub open spec fn jump(table: Table, t: int) -> bool {
    exists|i: int| 0 <= i < table.len() && (#[trigger] table[i])[t].dist(table[i][t + 1]) > 1
}

/// Two different agents exchange their cells between `t` and `t + 1`.
pub open spec fn edge_conflict(table: Table, t: int) -> bool {
    exists|i: int, j: int|
        #![trigger table[i], table[j]]
        0 <= i < table.len() && 0 <= j < table.len() && i != j && table[i][t] == table[j][t + 1]
            && table[j][t] == table[i][t + 1]
}

/// The table is a valid joint schedule for the timesteps `0..=makespan`: at no
/// timestep is there a vertex conflict or an agent off the grid, and between
/// no two consecutive timesteps is there a jump or an edge conflict.
pub open spec fn valid_until(table: Table, dims: Coordinate, makespan: int) -> bool {
    &&& forall|t: int|
        #![trigger vertex_conflict(table, t)]
        0 <= t <= makespan ==> !vertex_conflict(table, t) && !off_grid(table, dims, t)
    &&& forall|t: int|
        #![trigger jump(table, t)]
        0 <= t < makespan ==> !jump(table, t) && !edge_conflict(table, t)
}

/// Whether two different agents stand on one cell at time `t`.
pub fn has_vertex_conflict(paths: &Vec<Vec<Coordinate>>, t: usize) -> (b: bool)
    requires
        covers(rows(paths@), t as int),
    ensures
        b == vertex_conflict(rows(paths@), t as int),
{
    let ghost table = rows(paths@);
    let n = paths.len();
    let mut j: usize = 0;
    while j < n
        invariant
            n == paths.len(),
            table == rows(paths@),
            covers(table, t as int),
            j <= n,
            forall|a: int, b: int|
                #![trigger table[a], table[b]]
                0 <= a < b < j ==> table[a][t as int] != table[b][t as int],
        decreases n - j,
    {
        let mut i: usize = 0;
        while i < j
            invariant
                n == paths.len(),
                table == rows(paths@),
                covers(table, t as int),
                j < n,
                i <= j,
                forall|a: int| 0 <= a < i ==> (#[trigger] table[a])[t as int] != table[j as int][t as int],
            decreases j - i,
        {
            assert(table[i as int].len() > t && table[j as int].len() > t);
            if paths[i][t] == paths[j][t] {
                assert(table[i as int][t as int] == table[j as int][t as int]);
                return true;
            }
            i += 1;
        }
        j += 1;
    }
    false
}

/// Whether some agent stands outside the grid at time `t`.
pub fn has_off_grid(paths: &Vec<Vec<Coordinate>>, dims: Coordinate, t: usize) -> (b: bool)
    requires
        covers(rows(paths@), t as int),
    ensures
        b == off_grid(rows(paths@), dims, t as int),
{
    let ghost table = rows(paths@);
    let n = paths.len();
    let mut i: usize = 0;
    while i < n
        invariant
            n == paths.len(),
            table == rows(paths@),
            covers(table, t as int),
            i <= n,
            forall|a: int| 0 <= a < i ==> in_grid(dims, (#[trigger] table[a])[t as int]),
        decreases n - i,
    {
        assert(table[i as int].len() > t);
        let c = paths[i][t];
        if c.x >= dims.x || c.y >= dims.y {
            assert(!in_grid(dims, table[i as int][t as int]));
            return true;
        }
        i += 1;
    }
    false
}

/// Whether some agent moves further than one step between `t` and `t + 1`.
pub fn has_jump(paths: &Vec<Vec<Coordinate>>, t: usize) -> (b: bool)
    requires
        covers(rows(paths@), t + 1),
    ensures
        b == jump(rows(paths@), t as int),
{
    let ghost table = rows(paths@);
    let n = paths.len();
    let mut i: usize = 0;
    while i < n
        invariant
            n == paths.len(),
            table == rows(paths@),
            covers(table, t + 1),
            i <= n,
            forall|a: int|
                0 <= a < i ==> (#[trigger] table[a])[t as int].dist(table[a][t + 1]) <= 1,
        decreases n - i,
    {
        assert(table[i as int].len() > t + 1);
        let row = &paths[i];
        assert(row.len() > t + 1);
        if row[t].manh_dist(&row[t + 1]) > 1 {
            assert(table[i as int][t as int].dist(table[i as int][t + 1]) > 1);
            return true;
        }
        i += 1;
    }
    false
}

/// Whether two different agents exchange their cells between `t` and `t + 1`.
pub fn has_edge_conflict(paths: &Vec<Vec<Coordinate>>, t: usize) -> (b: bool)
    requires
        covers(rows(paths@), t + 1),
    ensures
        b == edge_conflict(rows(paths@), t as int),
{
    let ghost table = rows(paths@);
    let n = paths.len();
    let mut i: usize = 0;
    while i < n
        invariant
            n == paths.len(),
            table == rows(paths@),
            covers(table, t + 1),
            i <= n,
            forall|a: int, b: int|
                #![trigger table[a], table[b]]
                0 <= a < i && 0 <= b < n && a != b ==> !(table[a][t as int] == table[b][t + 1]
                    && table[b][t as int] == table[a][t + 1]),
        decreases n - i,
    {
        let mut j: usize = 0;
        while j < n
            invariant
                n == paths.len(),
                table == rows(paths@),
                covers(table, t + 1),
                i < n,
                j <= n,
                forall|b: int|
                    0 <= b < j && i != b ==> !(table[i as int][t as int] == (#[trigger] table[b])[t
                        + 1] && table[b][t as int] == table[i as int][t + 1]),
            decreases n - j,
        {
            assert(table[i as int].len() > t + 1 && table[j as int].len() > t + 1);
            let a = &paths[i];
            let b = &paths[j];
            assert(a.len() > t + 1);
            if i != j && a[t] == b[t + 1] && b[t] == a[t + 1] {
                assert(table[i as int][t as int] == table[j as int][t + 1] && table[j as int][t as int]
                    == table[i as int][t + 1]);
                return true;
            }
            j += 1;
        }
        i += 1;
    }
    false
}

/// Whether the rows form a valid joint schedule for the timesteps
/// `0..=makespan` on a grid of the given dimensions.
pub fn paths_valid(paths: &Vec<Vec<Coordinate>>, dims: Coordinate, makespan: usize) -> (b: bool)
    requires
        covers(rows(paths@), makespan as int),
    ensures
        b == valid_until(rows(paths@), dims, makespan as int),
{
    let ghost table = rows(paths@);
    let mut t: usize = 0;
    loop
        invariant
            table == rows(paths@),
            covers(table, makespan as int),
            t <= makespan,
            forall|u: int|
                #![trigger vertex_conflict(table, u)]
                0 <= u < t ==> !vertex_conflict(table, u) && !off_grid(table, dims, u),
            forall|u: int|
                #![trigger jump(table, u)]
                0 <= u < t ==> !jump(table, u) && !edge_conflict(table, u),
        decreases makespan - t,
    {
        let crowded = has_vertex_conflict(paths, t);
        let astray = has_off_grid(paths, dims, t);
        if crowded || astray {
            return false;
        }
        if t == makespan {
            return true;
        }
        let jumped = has_jump(paths, t);
        let swapped = has_edge_conflict(paths, t);
        if jumped || swapped {
            return false;
        }
        let ghost done = t as int;
        t += 1;
        assert forall|u: int| 0 <= u < t implies !vertex_conflict(table, u) && !off_grid(
            table,
            dims,
            u,
        ) by {
            if u < done {
                assert(!vertex_conflict(table, u));
            }
        }
        assert forall|u: int| 0 <= u < t implies !jump(table, u) && !edge_conflict(table, u) by {
            if u < done {
                assert(!jump(table, u));
            }
        }
    }
}

} // verus!
