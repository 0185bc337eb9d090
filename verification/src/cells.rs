//! Finite sets of cells, and of timed cells, held in vectors.

use crate::inputs::{gap, Coordinate, TimedCoordinate};
use vstd::prelude::*;

verus! {

/// The cell `c` comes before the cell `d`, counting through the rows and
/// within each through the columns.
pub open spec fn comes_before(c: Coordinate, d: Coordinate) -> bool {
    c.y < d.y || (c.y == d.y && c.x < d.x)
}

/// `c` is the first cell of the set.
pub open spec fn is_first(cells: Set<Coordinate>, c: Coordinate) -> bool {
    cells.contains(c) && forall|d: Coordinate| cells.contains(d) ==> !comes_before(d, c)
}

/// The first cell of a set that has one.
pub open spec fn first_cell(cells: Set<Coordinate>) -> Coordinate {
    choose|c: Coordinate| is_first(cells, c)
}

/// A set has at most one first cell.
pub proof fn lemma_first_cell(cells: Set<Coordinate>, c: Coordinate)
    requires
        is_first(cells, c),
    ensures
        first_cell(cells) == c,
{
    let d = first_cell(cells);
    assert(is_first(cells, d));
    assert(!comes_before(d, c) && !comes_before(c, d));
}

/// Two cells are close: neither their columns nor their rows are more than
/// one apart.
pub open spec fn close(c: Coordinate, d: Coordinate) -> bool {
    gap(c.x, d.x) <= 1 && gap(c.y, d.y) <= 1
}

/// A finite set of cells.
#[derive(Debug)]
pub struct CellSet {
    pub cells: Vec<Coordinate>,
}

impl View for CellSet {
    type V = Set<Coordinate>;

    open spec fn view(&self) -> Set<Coordinate> {
        self.cells@.to_set()
    }
}

impl CellSet {
    /// The empty set.
    pub fn new() -> (s: CellSet)
        ensures
            s@ == Set::<Coordinate>::empty(),
    {
        let s = CellSet { cells: Vec::new() };
        assert(s@ =~= Set::<Coordinate>::empty());
        s
    }

    pub fn contains(&self, c: &Coordinate) -> (b: bool)
        ensures
            b == self@.contains(*c),
    {
        let mut i: usize = 0;
        while i < self.cells.len()
            invariant
                i <= self.cells.len(),
                forall|k: int| 0 <= k < i ==> self.cells[k] != *c,
            decreases self.cells.len() - i,
        {
            if self.cells[i] == *c {
                return true;
            }
            i += 1;
        }
        false
    }

    pub fn is_empty(&self) -> (b: bool)
        ensures
            b == (self@ == Set::<Coordinate>::empty()),
    {
        if self.cells.len() == 0 {
            assert(self@ =~= Set::<Coordinate>::empty());
            true
        } else {
            assert(self@.contains(self.cells[0]));
            false
        }
    }

    pub fn insert(&mut self, c: Coordinate)
        ensures
            final(self)@ == old(self)@.insert(c),
    {
        if !self.contains(&c) {
            self.cells.push(c);
            assert forall|d: Coordinate| self@.contains(d) == old(self)@.insert(c).contains(d) by {
                if old(self).cells@.contains(d) {
                    let k = choose|k: int| 0 <= k < old(self).cells.len() && old(self).cells[k] == d;
                    assert(self.cells[k] == d);
                }
                if d == c {
                    assert(self.cells[self.cells.len() - 1] == c);
                }
            }
        }
        assert(self@ =~= old(self)@.insert(c));
    }

    pub fn remove(&mut self, c: Coordinate)
        ensures
            final(self)@ == old(self)@.remove(c),
    {
        let mut kept: Vec<Coordinate> = Vec::new();
        let mut i: usize = 0;
        while i < self.cells.len()
            invariant
                *self == *old(self),
                i <= self.cells.len(),
                forall|d: Coordinate|
                    kept@.contains(d) <==> d != c && exists|k: int| 0 <= k < i && self.cells[k] == d,
            decreases self.cells.len() - i,
        {
            let d = self.cells[i];
            if d != c {
                let ghost before = kept@;
                kept.push(d);
                assert forall|e: Coordinate|
                    kept@.contains(e) <==> e != c && exists|k: int|
                        0 <= k < i + 1 && self.cells[k] == e by {
                    if before.contains(e) {
                        let k = choose|k: int| 0 <= k < before.len() && before[k] == e;
                        assert(kept[k] == e);
                    }
                    if e == d {
                        assert(kept[kept.len() - 1] == e);
                    }
                }
            }
            i += 1;
        }
        self.cells = kept;
        assert(self@ =~= old(self)@.remove(c));
    }

    /// A copy of the set.
    pub fn copy(&self) -> (s: CellSet)
        ensures
            s@ == self@,
    {
        let mut cells: Vec<Coordinate> = Vec::new();
        let mut i: usize = 0;
        while i < self.cells.len()
            invariant
                i <= self.cells.len(),
                cells.len() == i,
                forall|k: int| 0 <= k < i ==> cells[k] == self.cells[k],
            decreases self.cells.len() - i,
        {
            cells.push(self.cells[i]);
            i += 1;
        }
        assert(cells@ =~= self.cells@);
        CellSet { cells }
    }

    /// The cells of either set.
    pub fn union(&self, other: &CellSet) -> (s: CellSet)
        ensures
            s@ == self@.union(other@),
    {
        let mut s = self.copy();
        let mut i: usize = 0;
        while i < other.cells.len()
            invariant
                i <= other.cells.len(),
                forall|d: Coordinate|
                    s@.contains(d) <==> self@.contains(d) || exists|k: int|
                        0 <= k < i && other.cells[k] == d,
            decreases other.cells.len() - i,
        {
            s.insert(other.cells[i]);
            i += 1;
        }
        assert(s@ =~= self@.union(other@));
        s
    }

    /// The cells of this set that are not in the other.
    pub fn difference(&self, other: &CellSet) -> (s: CellSet)
        ensures
            s@ == self@.difference(other@),
    {
        let mut s = CellSet::new();
        let mut i: usize = 0;
        while i < self.cells.len()
            invariant
                i <= self.cells.len(),
                forall|d: Coordinate|
                    s@.contains(d) <==> !other@.contains(d) && exists|k: int|
                        0 <= k < i && self.cells[k] == d,
            decreases self.cells.len() - i,
        {
            let c = self.cells[i];
            if !other.contains(&c) {
                s.insert(c);
            }
            i += 1;
        }
        assert(s@ =~= self@.difference(other@));
        s
    }

    /// Whether the two sets have no cell in common.
    pub fn is_disjoint(&self, other: &CellSet) -> (b: bool)
        ensures
            b == self@.disjoint(other@),
    {
        let mut i: usize = 0;
        while i < self.cells.len()
            invariant
                i <= self.cells.len(),
                forall|k: int| 0 <= k < i ==> !other@.contains(self.cells[k]),
            decreases self.cells.len() - i,
        {
            if other.contains(&self.cells[i]) {
                assert(self@.contains(self.cells[i as int]));
                return false;
            }
            i += 1;
        }
        true
    }

    /// Whether every cell of this set is in the other.
    pub fn is_subset(&self, other: &CellSet) -> (b: bool)
        ensures
            b == self@.subset_of(other@),
    {
        let mut i: usize = 0;
        while i < self.cells.len()
            invariant
                i <= self.cells.len(),
                forall|k: int| 0 <= k < i ==> other@.contains(self.cells[k]),
            decreases self.cells.len() - i,
        {
            if !other.contains(&self.cells[i]) {
                assert(self@.contains(self.cells[i as int]));
                return false;
            }
            i += 1;
        }
        true
    }

    /// Whether the two sets hold the same cells.
    pub fn same(&self, other: &CellSet) -> (b: bool)
        ensures
            b == (self@ == other@),
    {
        let b = self.is_subset(other) && other.is_subset(self);
        if b {
            assert(self@ =~= other@);
        }
        b
    }

    /// The first cell of the set, counting through the rows and within each
    /// through the columns; none where the set is empty.
    pub fn first(&self) -> (found: Option<Coordinate>)
        ensures
            match found {
                Some(c) => is_first(self@, c),
                None => self@ == Set::<Coordinate>::empty(),
            },
    {
        let mut found: Option<Coordinate> = None;
        let mut i: usize = 0;
        while i < self.cells.len()
            invariant
                i <= self.cells.len(),
                found matches Some(c) ==> self@.contains(c),
                forall|k: int|
                    0 <= k < i ==> found is Some && !comes_before(self.cells[k], found->0),
            decreases self.cells.len() - i,
        {
            let c = self.cells[i];
            assert(self@.contains(self.cells[i as int]));
            let closer = match found {
                Some(d) => c.y < d.y || (c.y == d.y && c.x < d.x),
                None => true,
            };
            if closer {
                found = Some(c);
            }
            i += 1;
        }
        if found.is_none() {
            assert(self@ =~= Set::<Coordinate>::empty());
        }
        found
    }

    /// The first of the cells that the two sets have in common, counting
    /// through the rows and within each through the columns.
    pub fn first_common(&self, other: &CellSet) -> (found: Option<Coordinate>)
        ensures
            match found {
                Some(c) => is_first(self@.intersect(other@), c),
                None => self@.disjoint(other@),
            },
    {
        let mut found: Option<Coordinate> = None;
        let mut i: usize = 0;
        while i < self.cells.len()
            invariant
                i <= self.cells.len(),
                found matches Some(c) ==> self@.contains(c) && other@.contains(c),
                forall|k: int|
                    0 <= k < i && other@.contains(self.cells[k]) ==> found is Some && !comes_before(
                        self.cells[k],
                        found->0,
                    ),
            decreases self.cells.len() - i,
        {
            let c = self.cells[i];
            if other.contains(&c) {
                assert(self@.contains(self.cells[i as int]));
                let closer = match found {
                    Some(d) => c.y < d.y || (c.y == d.y && c.x < d.x),
                    None => true,
                };
                if closer {
                    found = Some(c);
                }
            }
            i += 1;
        }
        found
    }
}

/// A finite set of timed cells.
#[derive(Debug)]
pub struct TimedSet {
    pub items: Vec<TimedCoordinate>,
}

impl View for TimedSet {
    type V = Set<TimedCoordinate>;

    open spec fn view(&self) -> Set<TimedCoordinate> {
        self.items@.to_set()
    }
}

/// The cells of a set, each at the time `t`.
pub open spec fn timed(cells: Set<Coordinate>, t: int) -> Set<TimedCoordinate> {
    Set::new(|p: TimedCoordinate| p.t == t && cells.contains(p.cell()))
}

/// The first `k` of some cells, each at the time `t`.
pub open spec fn timed_first(cells: Seq<Coordinate>, k: int, t: int) -> Set<TimedCoordinate> {
    Set::new(
        |p: TimedCoordinate| p.t == t && exists|j: int| 0 <= j < k && #[trigger] cells[j] == p.cell(),
    )
}

/// The cells that a set of timed cells holds for the time `t`.
pub open spec fn cells_at(items: Set<TimedCoordinate>, t: int) -> Set<Coordinate> {
    Set::new(|c: Coordinate| items.contains(TimedCoordinate { x: c.x, y: c.y, t: t as usize }))
}

impl TimedSet {
    /// The empty set.
    pub fn new() -> (s: TimedSet)
        ensures
            s@ == Set::<TimedCoordinate>::empty(),
    {
        let s = TimedSet { items: Vec::new() };
        assert(s@ =~= Set::<TimedCoordinate>::empty());
        s
    }

    pub fn contains(&self, p: &TimedCoordinate) -> (b: bool)
        ensures
            b == self@.contains(*p),
    {
        let mut i: usize = 0;
        while i < self.items.len()
            invariant
                i <= self.items.len(),
                forall|k: int| 0 <= k < i ==> self.items[k] != *p,
            decreases self.items.len() - i,
        {
            if self.items[i] == *p {
                return true;
            }
            i += 1;
        }
        false
    }

    pub fn insert(&mut self, p: TimedCoordinate)
        ensures
            final(self)@ == old(self)@.insert(p),
    {
        if !self.contains(&p) {
            self.items.push(p);
            assert forall|d: TimedCoordinate|
                self@.contains(d) == old(self)@.insert(p).contains(d) by {
                if old(self).items@.contains(d) {
                    let k = choose|k: int| 0 <= k < old(self).items.len() && old(self).items[k] == d;
                    assert(self.items[k] == d);
                }
                if d == p {
                    assert(self.items[self.items.len() - 1] == p);
                }
            }
        }
        assert(self@ =~= old(self)@.insert(p));
    }

    /// Adds every cell of a set, at the time `t`.
    pub fn insert_all(&mut self, cells: &CellSet, t: usize)
        ensures
            final(self)@ == old(self)@.union(timed(cells@, t as int)),
    {
        let mut i: usize = 0;
        assert(self@ =~= old(self)@.union(timed_first(cells.cells@, 0, t as int)));
        while i < cells.cells.len()
            invariant
                i <= cells.cells.len(),
                self@ == old(self)@.union(timed_first(cells.cells@, i as int, t as int)),
            decreases cells.cells.len() - i,
        {
            let c = cells.cells[i];
            self.insert(TimedCoordinate { x: c.x, y: c.y, t });
            assert forall|p: TimedCoordinate|
                timed_first(cells.cells@, i + 1, t as int).contains(p) <==> timed_first(
                    cells.cells@,
                    i as int,
                    t as int,
                ).contains(p) || p == (TimedCoordinate { x: c.x, y: c.y, t }) by {
                if timed_first(cells.cells@, i as int, t as int).contains(p) {
                    let k = choose|k: int| 0 <= k < i && #[trigger] cells.cells[k] == p.cell();
                    assert(cells.cells[k] == p.cell());
                }
                if p == (TimedCoordinate { x: c.x, y: c.y, t }) {
                    assert(cells.cells[i as int] == p.cell());
                }
            }
            i += 1;
            assert(self@ =~= old(self)@.union(timed_first(cells.cells@, i as int, t as int)));
        }
        assert forall|p: TimedCoordinate|
            timed_first(cells.cells@, i as int, t as int).contains(p) <==> timed(
                cells@,
                t as int,
            ).contains(p) by {
            if timed(cells@, t as int).contains(p) {
                let k = choose|k: int| 0 <= k < cells.cells.len() && cells.cells[k] == p.cell();
                assert(cells.cells[k] == p.cell());
            }
            if timed_first(cells.cells@, i as int, t as int).contains(p) {
                let k = choose|k: int| 0 <= k < i && #[trigger] cells.cells[k] == p.cell();
                assert(cells.cells@.contains(cells.cells[k]));
            }
        }
        assert(self@ =~= old(self)@.union(timed(cells@, t as int)));
    }

    /// The cells that the set holds for the time `t`.
    pub fn at(&self, t: usize) -> (s: CellSet)
        ensures
            s@ == cells_at(self@, t as int),
    {
        let mut s = CellSet::new();
        let mut i: usize = 0;
        while i < self.items.len()
            invariant
                i <= self.items.len(),
                forall|d: Coordinate|
                    s@.contains(d) <==> exists|k: int|
                        0 <= k < i && self.items[k] == (TimedCoordinate { x: d.x, y: d.y, t }),
            decreases self.items.len() - i,
        {
            let p = self.items[i];
            if p.t == t {
                s.insert(p.coordinate());
            }
            i += 1;
        }
        assert(s@ =~= cells_at(self@, t as int));
        s
    }
}

} // verus!
