//! The data model: grid coordinates, instances, solutions and announcements,
//! with the validity predicate and the derived metrics.

use crate::table::{covers, paths_valid, valid_until, Table};
use vstd::prelude::*;
use vstd::std_specs::convert::FromSpecImpl;

verus! {

/// A cell of the grid.
#[derive(Debug, Hash, Eq, Copy, Clone, PartialEq, Structural)]
pub struct Coordinate {
    pub x: u16,
    pub y: u16,
}

/// A cell of the grid tagged with a timestep.
#[derive(Debug, Hash, Eq, Copy, Clone, PartialEq, Structural)]
pub struct TimedCoordinate {
    pub x: u16,
    pub y: u16,
    pub t: usize,
}

/// Absolute difference of two grid indices.
pub open spec fn gap(a: u16, b: u16) -> nat {
    if a >= b {
        (a - b) as nat
    } else {
        (b - a) as nat
    }
}

impl Coordinate {
    /// Manhattan distance between two cells.
    pub open spec fn dist(self, other: Coordinate) -> nat {
        gap(self.x, other.x) + gap(self.y, other.y)
    }

    /// Two cells are adjacent when they are equal or share a side.
    pub open spec fn near(self, other: Coordinate) -> bool {
        self.dist(other) <= 1
    }

    /// Whether the two cells are equal or share a side.
    pub fn adj(&self, other: &Self) -> (b: bool)
        ensures
            b == self.near(*other),
    {
        self.manh_dist(other) <= 1
    }

    /// The Manhattan distance to another cell.
    pub fn manh_dist(&self, other: &Self) -> (d: usize)
        ensures
            d == self.dist(*other),
    {
        let dx: u16 = if self.x >= other.x {
            self.x - other.x
        } else {
            other.x - self.x
        };
        let dy: u16 = if self.y >= other.y {
            self.y - other.y
        } else {
            other.y - self.y
        };
        dx as usize + dy as usize
    }

    /// The cell at the time `t`; its projection is the cell again.
    pub fn as_time(&self, t: usize) -> (tc: TimedCoordinate)
        ensures
            tc == (TimedCoordinate { x: self.x, y: self.y, t }),
            tc.cell() == *self,
    {
        TimedCoordinate { x: self.x, y: self.y, t }
    }
}

impl From<TimedCoordinate> for Coordinate {
    fn from(tc: TimedCoordinate) -> (c: Coordinate) {
        Coordinate { x: tc.x, y: tc.y }
    }
}

impl FromSpecImpl<TimedCoordinate> for Coordinate {
    open spec fn obeys_from_spec() -> bool {
        true
    }

    open spec fn from_spec(tc: TimedCoordinate) -> Coordinate {
        tc.cell()
    }
}

impl TimedCoordinate {
    /// The cell of a timed coordinate, without its timestep.
    pub open spec fn cell(self) -> Coordinate {
        Coordinate { x: self.x, y: self.y }
    }

    /// Projects onto the grid, dropping the timestep.
    pub fn coordinate(&self) -> (c: Coordinate)
        ensures
            c == self.cell(),
    {
        Coordinate { x: self.x, y: self.y }
    }

    /// Whether the cells of the two are equal or share a side, whatever their
    /// timesteps.
    pub fn adj(&self, other: &Self) -> (b: bool)
        ensures
            b == self.cell().near(other.cell()),
    {
        self.coordinate().adj(&other.coordinate())
    }

    /// The Manhattan distance between the cells of the two.
    pub fn manh_dist(&self, other: &Self) -> (d: usize)
        ensures
            d == self.cell().dist(other.cell()),
    {
        self.coordinate().manh_dist(&other.coordinate())
    }

    /// The same cell at another time.
    pub fn as_time(&self, new_time: usize) -> (tc: TimedCoordinate)
        ensures
            tc == (TimedCoordinate { x: self.x, y: self.y, t: new_time }),
    {
        TimedCoordinate { x: self.x, y: self.y, t: new_time }
    }
}

impl GridMap {
    /// No obstacle is listed twice.
    pub open spec fn distinct(self) -> bool {
        self.obstacles@.no_duplicates()
    }

    /// Whether no obstacle is listed twice.
    pub fn has_distinct_obstacles(&self) -> (b: bool)
        ensures
            b == self.distinct(),
    {
        let mut j: usize = 0;
        while j < self.obstacles.len()
            invariant
                j <= self.obstacles.len(),
                forall|p: int, q: int|
                    0 <= p < q < j ==> self.obstacles[p] != self.obstacles[q],
            decreases self.obstacles.len() - j,
        {
            let mut i: usize = 0;
            while i < j
                invariant
                    j < self.obstacles.len(),
                    i <= j,
                    forall|p: int| 0 <= p < i ==> self.obstacles[p] != self.obstacles[j as int],
                decreases j - i,
            {
                if self.obstacles[i] == self.obstacles[j] {
                    return false;
                }
                i += 1;
            }
            j += 1;
        }
        assert forall|p: int, q: int|
            0 <= p < self.obstacles.len() && 0 <= q < self.obstacles.len() && p != q implies self.obstacles@[p]
            != self.obstacles@[q] by {
            if p < q {
                assert(self.obstacles[p] != self.obstacles[q]);
            } else {
                assert(self.obstacles[q] != self.obstacles[p]);
            }
        }
        true
    }
}

/// An agent of an instance; its name joins the instance, the solution and
/// the announcements.
#[derive(Debug, Clone, PartialEq)]
pub struct Agent {
    pub goal: Coordinate,
    pub name: String,
    pub start: Coordinate,
}

/// The grid: its dimensions and the cells that no agent may enter.
#[derive(Debug, Clone, PartialEq)]
pub struct GridMap {
    pub dimensions: Coordinate,
    pub obstacles: Vec<Coordinate>,
}

#[derive(Debug, Clone, PartialEq)]
pub struct MapfInstance {
    pub agents: Vec<Agent>,
    pub map: GridMap,
}

/// What the planner says of a solution. Only the makespan, the last
/// timestep at which any agent still moves, bears on the analyses.
#[allow(non_snake_case)]
#[derive(Debug, Clone, PartialEq)]
pub struct Statistics {
    pub cost: u32,
    pub makespan: usize,
    pub highLevelExpanded: u32,
    pub lowLevelExpanded: u32,
}

/// The planned path of one agent, one position per timestep.
#[derive(Debug, Clone, PartialEq)]
pub struct AgentPath {
    pub name: String,
    pub path: Vec<TimedCoordinate>,
}

/// A joint schedule: one path for each agent.
#[derive(Debug, Clone, PartialEq)]
pub struct MapfSolution {
    pub statistics: Statistics,
    pub schedule: Vec<AgentPath>,
}

/// The announcement horizons of one agent: `horizons[t]` is the first
/// timestep that the announcement made at time `t` does not disclose.
#[derive(Debug, Clone, PartialEq)]
pub struct AgentHorizons {
    pub name: String,
    pub horizons: Vec<usize>,
}

#[derive(Debug, Clone, PartialEq)]
pub struct Announcements {
    pub schedule: Vec<AgentHorizons>,
}

/// An exact quotient of two counts.
#[derive(Debug, Eq, Copy, Clone, PartialEq, Structural)]
pub struct Fraction {
    pub numerator: usize,
    pub denominator: usize,
}

/// The names of the agents, in their order.
pub open spec fn agent_names(agents: Seq<Agent>) -> Seq<Seq<char>> {
    Seq::new(agents.len(), |i: int| agents[i].name@)
}

/// `i` is the first position at which `name` stands in `names`.
pub open spec fn first_named(names: Seq<Seq<char>>, name: Seq<char>, i: int) -> bool {
    &&& 0 <= i < names.len()
    &&& names[i] == name
    &&& forall|j: int| 0 <= j < i ==> names[j] != name
}

/// `name` stands somewhere in `names`.
pub open spec fn has_name(names: Seq<Seq<char>>, name: Seq<char>) -> bool {
    exists|i: int| 0 <= i < names.len() && names[i] == name
}

/// The first position at which `name` stands in `names`, where it stands
/// there at all.
pub open spec fn index_of(names: Seq<Seq<char>>, name: Seq<char>) -> int {
    choose|i: int| first_named(names, name, i)
}

/// The first position of a name is unique.
pub proof fn lemma_first_named(names: Seq<Seq<char>>, name: Seq<char>, i: int)
    requires
        first_named(names, name, i),
    ensures
        index_of(names, name) == i,
        has_name(names, name),
{
    let k = index_of(names, name);
    assert(first_named(names, name, k));
    if k < i {
        assert(names[k] != name);
    } else if i < k {
        assert(names[i] != name);
    }
}

/// The sum of the lookaheads, `h[t] - t - 1`, of the first `n` horizons of
/// one agent.
pub open spec fn row_lookahead(h: Seq<usize>, n: int) -> int
    decreases n,
{
    if n <= 0 {
        0
    } else {
        row_lookahead(h, n - 1) + (h[n - 1] - (n - 1) - 1)
    }
}

/// Where every horizon lies after its timestep, the sum of the lookaheads
/// grows with the number of horizons summed.
pub proof fn lemma_row_lookahead_grows(h: Seq<usize>, m: int, n: int)
    requires
        0 <= m <= n <= h.len(),
        forall|t: int| 0 <= t < h.len() ==> #[trigger] h[t] > t,
    ensures
        0 <= row_lookahead(h, m) <= row_lookahead(h, n),
    decreases n,
{
    if m < n {
        lemma_row_lookahead_grows(h, m, n - 1);
        assert(h[n - 1] > n - 1);
    } else if n > 0 {
        lemma_row_lookahead_grows(h, m - 1, n - 1);
        assert(h[n - 1] > n - 1);
    }
}

/// A name that stands somewhere in `names` has a first position there.
pub proof fn lemma_index_of(names: Seq<Seq<char>>, name: Seq<char>)
    requires
        has_name(names, name),
    ensures
        first_named(names, name, index_of(names, name)),
{
    let k = choose|i: int| 0 <= i < names.len() && names[i] == name;
    lemma_first_before(names, name, k);
}

/// A name that stands at position `k` has a first position.
proof fn lemma_first_before(names: Seq<Seq<char>>, name: Seq<char>, k: int)
    requires
        0 <= k < names.len(),
        names[k] == name,
    ensures
        exists|i: int| first_named(names, name, i),
    decreases k,
{
    if forall|j: int| 0 <= j < k ==> names[j] != name {
        assert(first_named(names, name, k));
    } else {
        let j = choose|j: int| 0 <= j < k && names[j] == name;
        lemma_first_before(names, name, j);
    }
}

impl MapfSolution {
    /// The cells of the schedule: one row per agent, one column per timestep.
    pub open spec fn table(self) -> Table {
        Seq::new(
            self.schedule.len() as nat,
            |i: int|
                Seq::new(
                    self.schedule[i].path.len() as nat,
                    |t: int| self.schedule[i].path[t].cell(),
                ),
        )
    }

    /// The agents' names, in the order of the schedule.
    pub open spec fn names(self) -> Seq<Seq<char>> {
        Seq::new(self.schedule.len() as nat, |i: int| self.schedule[i].name@)
    }

    /// Every path has a position for each timestep up to the makespan.
    pub open spec fn spans(self) -> bool {
        covers(self.table(), self.statistics.makespan as int)
    }

    /// A joint schedule is valid on a grid when, at every timestep up to the
    /// makespan, no two agents share a cell and every agent is on the grid,
    /// and, between consecutive timesteps, every agent moves by at most one
    /// step and no two agents exchange their cells.
    pub open spec fn is_valid(self, instance: MapfInstance) -> bool {
        valid_until(self.table(), instance.map.dimensions, self.statistics.makespan as int)
    }

    /// At time `t` some agent under another name is adjacent to the named
    /// agent.
    pub open spec fn observed(self, name: Seq<char>, t: int) -> bool {
        exists|j: int|
            0 <= j < self.schedule.len() && (#[trigger] self.names()[j]) != name
                && self.table()[j][t].near(self.table()[index_of(self.names(), name)][t])
    }

    /// At no timestep of `lo..hi` is the named agent observed.
    pub open spec fn unobserved(self, name: Seq<char>, lo: int, hi: int) -> bool {
        forall|t: int| #![trigger self.observed(name, t)] lo <= t < hi ==> !self.observed(name, t)
    }

    /// `longest` is the length of the longest run of consecutive timesteps,
    /// up to the makespan, at none of which the named agent is observed.
    pub open spec fn longest_unobserved(self, name: Seq<char>, longest: int) -> bool {
        &&& exists|lo: int|
            0 <= lo && lo + longest <= self.statistics.makespan + 1 && #[trigger] self.unobserved(
                name,
                lo,
                lo + longest,
            )
        &&& forall|lo: int, hi: int|
            0 <= lo <= hi <= self.statistics.makespan + 1 && #[trigger] self.unobserved(name, lo, hi)
                ==> hi - lo <= longest
    }

    /// The rows of the table that belong to the given agents, in their order:
    /// for each agent the first path under its name.
    pub open spec fn aligned(self, agents: Seq<Agent>) -> Table {
        Seq::new(
            agents.len(),
            |i: int| self.table()[index_of(self.names(), agents[i].name@)],
        )
    }

    /// Every one of the agents has a path in the schedule.
    pub open spec fn knows(self, agents: Seq<Agent>) -> bool {
        forall|i: int| 0 <= i < agents.len() ==> has_name(self.names(), (#[trigger] agents[i]).name@)
    }

    /// Where every path spans the makespan, so do the rows of the agents.
    pub proof fn lemma_aligned_covers(self, agents: Seq<Agent>)
        requires
            self.spans(),
            self.knows(agents),
        ensures
            covers(self.aligned(agents), self.statistics.makespan as int),
    {
        assert forall|i: int| 0 <= i < self.aligned(agents).len() implies (
        #[trigger] self.aligned(agents)[i]).len() > self.statistics.makespan by {
            assert(has_name(self.names(), agents[i].name@));
            lemma_index_of(self.names(), agents[i].name@);
            let at = index_of(self.names(), agents[i].name@);
            assert(self.table()[at].len() > self.statistics.makespan);
        }
    }

    /// The paths of the given agents as rows of plain coordinates, in the
    /// agents' order; `None` where an agent has no path.
    pub fn paths_of(&self, agents: &Vec<Agent>) -> (found: Option<Vec<Vec<Coordinate>>>)
        ensures
            found is Some <==> self.knows(agents@),
            found matches Some(paths) ==> crate::table::rows(paths@) == self.aligned(agents@),
    {
        let mut paths: Vec<Vec<Coordinate>> = Vec::new();
        let mut i: usize = 0;
        while i < agents.len()
            invariant
                i <= agents.len(),
                paths.len() == i,
                forall|k: int| 0 <= k < i ==> has_name(self.names(), (#[trigger] agents[k]).name@),
                forall|k: int| 0 <= k < i ==> (#[trigger] paths[k])@ == self.aligned(agents@)[k],
            decreases agents.len() - i,
        {
            let at = match self.find(&agents[i].name) {
                Some(at) => at,
                None => {
                    return None;
                },
            };
            proof {
                lemma_first_named(self.names(), agents[i as int].name@, at as int);
            }
            let path = &self.schedule[at].path;
            let mut row: Vec<Coordinate> = Vec::new();
            let mut t: usize = 0;
            while t < path.len()
                invariant
                    t <= path.len(),
                    row.len() == t,
                    forall|u: int| 0 <= u < t ==> #[trigger] row[u] == path[u].cell(),
                decreases path.len() - t,
            {
                row.push(path[t].coordinate());
                t += 1;
            }
            assert(row@ =~= self.table()[at as int]);
            paths.push(row);
            i += 1;
        }
        assert(crate::table::rows(paths@) =~= self.aligned(agents@));
        Some(paths)
    }

    /// Whether every path has a position for each timestep up to the
    /// makespan.
    pub fn has_span(&self) -> (b: bool)
        ensures
            b == self.spans(),
    {
        let mut i: usize = 0;
        while i < self.schedule.len()
            invariant
                i <= self.schedule.len(),
                forall|k: int|
                    0 <= k < i ==> (#[trigger] self.table()[k]).len() > self.statistics.makespan,
            decreases self.schedule.len() - i,
        {
            if self.schedule[i].path.len() <= self.statistics.makespan {
                assert(self.table()[i as int].len() <= self.statistics.makespan);
                return false;
            }
            assert(self.table()[i as int].len() > self.statistics.makespan);
            i += 1;
        }
        true
    }

    /// The cells of the schedule as rows of plain coordinates.
    pub fn cells(&self) -> (paths: Vec<Vec<Coordinate>>)
        ensures
            crate::table::rows(paths@) == self.table(),
    {
        let mut paths: Vec<Vec<Coordinate>> = Vec::new();
        let mut i: usize = 0;
        while i < self.schedule.len()
            invariant
                i <= self.schedule.len(),
                paths.len() == i,
                forall|k: int| 0 <= k < i ==> (#[trigger] paths[k])@ == self.table()[k],
            decreases self.schedule.len() - i,
        {
            let path = &self.schedule[i].path;
            let mut row: Vec<Coordinate> = Vec::new();
            let mut t: usize = 0;
            while t < path.len()
                invariant
                    t <= path.len(),
                    row.len() == t,
                    forall|u: int| 0 <= u < t ==> #[trigger] row[u] == path[u].cell(),
                decreases path.len() - t,
            {
                row.push(path[t].coordinate());
                t += 1;
            }
            assert(row@ =~= self.table()[i as int]);
            paths.push(row);
            i += 1;
        }
        assert(crate::table::rows(paths@) =~= self.table());
        paths
    }

    /// The position of the first path under the given name.
    pub fn find(&self, name: &String) -> (found: Option<usize>)
        ensures
            match found {
                Some(i) => first_named(self.names(), name@, i as int),
                None => !has_name(self.names(), name@),
            },
    {
        let mut i: usize = 0;
        while i < self.schedule.len()
            invariant
                i <= self.schedule.len(),
                forall|j: int| 0 <= j < i ==> self.names()[j] != name@,
            decreases self.schedule.len() - i,
        {
            if self.schedule[i].name == *name {
                assert(self.names()[i as int] == name@);
                return Some(i);
            }
            assert(self.names()[i as int] != name@);
            i += 1;
        }
        None
    }

    /// Whether the joint schedule is valid on the grid of the instance.
    pub fn valid(&self, instance: &MapfInstance) -> (b: bool)
        requires
            self.spans(),
        ensures
            b == self.is_valid(*instance),
    {
        let paths = self.cells();
        paths_valid(&paths, instance.map.dimensions, self.statistics.makespan)
    }

    /// Whether at time `t` some agent under another name is adjacent to the
    /// agent at position `a` of the schedule, the first under `name`.
    fn sees(&self, name: &String, a: usize, t: usize) -> (b: bool)
        requires
            self.spans(),
            first_named(self.names(), name@, a as int),
            t <= self.statistics.makespan,
        ensures
            b == self.observed(name@, t as int),
    {
        proof {
            lemma_first_named(self.names(), name@, a as int);
        }
        let ghost table = self.table();
        assert(table[a as int].len() > t);
        let here = self.schedule[a].path[t];
        let mut j: usize = 0;
        while j < self.schedule.len()
            invariant
                j <= self.schedule.len(),
                table == self.table(),
                covers(table, self.statistics.makespan as int),
                t <= self.statistics.makespan,
                a < self.schedule.len(),
                index_of(self.names(), name@) == a,
                here.cell() == table[a as int][t as int],
                forall|k: int|
                    0 <= k < j ==> !((#[trigger] self.names()[k]) != name@ && table[k][t as int].near(
                        table[a as int][t as int],
                    )),
            decreases self.schedule.len() - j,
        {
            assert(table[j as int].len() > t);
            let other = &self.schedule[j];
            if !(other.name == *name) && other.path[t].adj(&here) {
                assert(self.names()[j as int] != name@);
                assert(table[j as int][t as int].near(table[a as int][t as int]));
                return true;
            }
            assert(self.names()[j as int] == other.name@);
            j += 1;
        }
        false
    }

    /// The longest run of consecutive timesteps, up to the makespan, at none
    /// of which an agent under another name is adjacent to the named agent.
    pub fn max_inter_observation_time(&self, attacker_name: &String) -> (longest: usize)
        requires
            self.spans(),
            has_name(self.names(), attacker_name@),
        ensures
            self.longest_unobserved(attacker_name@, longest as int),
    {
        let ghost name = attacker_name@;
        let a = match self.find(attacker_name) {
            Some(a) => a,
            None => {
                assert(self.unobserved(name, 0, 0));
                return 0;
            },
        };
        let makespan = self.statistics.makespan;
        assert(self.table()[a as int].len() > makespan);
        let mut run: usize = 0;
        let mut longest: usize = 0;
        let mut t: usize = 0;
        assert(self.unobserved(name, 0, 0 + longest));
        while t <= makespan
            invariant
                name == attacker_name@,
                makespan == self.statistics.makespan,
                makespan < usize::MAX,
                self.spans(),
                first_named(self.names(), name, a as int),
                t <= makespan + 1,
                run <= t,
                run <= longest <= t,
                self.unobserved(name, t - run, t as int),
                run == t || self.observed(name, t - run - 1),
                exists|lo: int|
                    0 <= lo && lo + longest <= t && #[trigger] self.unobserved(name, lo, lo + longest),
                forall|lo: int, hi: int|
                    0 <= lo <= hi <= t && #[trigger] self.unobserved(name, lo, hi) ==> hi - lo
                        <= longest,
            decreases makespan + 1 - t,
        {
            let ghost before = longest as int;
            let ghost start = choose|lo: int|
                0 <= lo && lo + longest <= t && #[trigger] self.unobserved(name, lo, lo + longest);
            if self.sees(attacker_name, a, t) {
                run = 0;
                assert(self.unobserved(name, t + 1, t + 1));
            } else {
                run += 1;
                assert(self.unobserved(name, t + 1 - run, t + 1));
            }
            if run > longest {
                longest = run;
                assert(self.unobserved(name, t + 1 - longest, t + 1 - longest + longest));
            } else {
                assert(self.unobserved(name, start, start + longest));
            }
            assert forall|lo: int, hi: int|
                0 <= lo <= hi <= t + 1 && #[trigger] self.unobserved(name, lo, hi) implies hi - lo
                <= longest by {
                if hi <= t {
                    assert(hi - lo <= before);
                } else if lo < hi {
                    assert(!self.observed(name, t as int));
                    if lo < t + 1 - run {
                        assert(self.observed(name, t + 1 - run - 1));
                    }
                }
            }
            t += 1;
        }
        longest
    }
}

impl Announcements {
    /// The horizons: one row per agent, one column per timestep.
    pub open spec fn rows(self) -> Seq<Seq<usize>> {
        Seq::new(self.schedule.len() as nat, |i: int| self.schedule[i].horizons@)
    }

    /// The agents' names, in the order of the schedule.
    pub open spec fn names(self) -> Seq<Seq<char>> {
        Seq::new(self.schedule.len() as nat, |i: int| self.schedule[i].name@)
    }

    /// The number of timesteps that the first agent's horizons cover.
    pub open spec fn span(self) -> int {
        self.rows()[0].len() as int
    }

    /// There is at least one agent, and all agents' horizons cover the same
    /// timesteps.
    pub open spec fn uniform(self) -> bool {
        &&& self.schedule.len() > 0
        &&& forall|i: int|
            0 <= i < self.schedule.len() ==> (#[trigger] self.rows()[i]).len() == self.span()
    }

    /// Every horizon lies after the timestep of its announcement.
    pub open spec fn ahead(self) -> bool {
        forall|i: int, t: int|
            0 <= i < self.schedule.len() && 0 <= t < self.rows()[i].len() ==> (
            #[trigger] self.rows()[i][t]) > t
    }

    /// Some agent's horizon at time `t` differs from its horizon at `t - 1`.
    pub open spec fn changed(self, t: int) -> bool {
        exists|i: int|
            0 <= i < self.schedule.len() && (#[trigger] self.rows()[i])[t] != self.rows()[i][t - 1]
    }

    /// An announcement is made at time `t`: at the start, and whenever some
    /// agent's horizon changes.
    pub open spec fn announced(self, t: int) -> bool {
        t == 0 || self.changed(t)
    }

    /// The sum of all lookaheads of the first `k` agents.
    pub open spec fn lookahead_sum(self, k: int) -> int
        decreases k,
    {
        if k <= 0 {
            0
        } else {
            self.lookahead_sum(k - 1) + row_lookahead(
                self.rows()[k - 1],
                self.rows()[k - 1].len() as int,
            )
        }
    }

    /// The number of horizons of the first `k` agents.
    pub open spec fn entries(self, k: int) -> int
        decreases k,
    {
        if k <= 0 {
            0
        } else {
            self.entries(k - 1) + self.rows()[k - 1].len()
        }
    }

    /// Both sums grow with the number of agents summed over.
    pub proof fn lemma_sums_grow(self, j: int, k: int)
        requires
            self.ahead(),
            0 <= j <= k <= self.schedule.len(),
        ensures
            0 <= self.lookahead_sum(j) <= self.lookahead_sum(k),
            0 <= self.entries(j) <= self.entries(k),
        decreases k,
    {
        if k > 0 {
            let row = self.rows()[k - 1];
            assert forall|t: int| 0 <= t < row.len() implies #[trigger] row[t] > t by {
                assert(self.rows()[k - 1][t] > t);
            }
            lemma_row_lookahead_grows(row, 0, row.len() as int);
            if j < k {
                self.lemma_sums_grow(j, k - 1);
            } else {
                self.lemma_sums_grow(j - 1, k - 1);
            }
        }
    }

    /// `least` is the least lookahead, `horizons[t] - t - 1`, over all agents
    /// and all timesteps, or 0 where there is no horizon at all.
    pub open spec fn least_lookahead(self, least: int) -> bool {
        &&& forall|i: int, t: int|
            0 <= i < self.schedule.len() && 0 <= t < self.rows()[i].len() ==> least <= (
            #[trigger] self.rows()[i][t]) - t - 1
        &&& (exists|i: int, t: int|
            0 <= i < self.schedule.len() && 0 <= t < self.rows()[i].len() && least == (
            #[trigger] self.rows()[i][t]) - t - 1) || (least == 0 && forall|i: int|
            0 <= i < self.schedule.len() ==> (#[trigger] self.rows()[i]).len() == 0)
    }

    /// `least` is the least distance between two timesteps at which an
    /// announcement is made, or the number of timesteps where no two lie
    /// that close.
    pub open spec fn least_gap(self, least: int) -> bool {
        &&& least <= self.span()
        &&& forall|u: int, v: int|
            #![trigger self.announced(u), self.announced(v)]
            0 <= u < v < self.span() && self.announced(u) && self.announced(v) ==> v - u >= least
        &&& least == self.span() || exists|u: int, v: int|
            #![trigger self.announced(u), self.announced(v)]
            0 <= u < v < self.span() && self.announced(u) && self.announced(v) && v - u == least
    }

    /// Whether there is at least one agent and all agents' horizons cover the
    /// same timesteps.
    pub fn is_uniform(&self) -> (b: bool)
        ensures
            b == self.uniform(),
    {
        if self.schedule.len() == 0 {
            return false;
        }
        assert(self.rows()[0] == self.schedule[0].horizons@);
        let len = self.schedule[0].horizons.len();
        let mut i: usize = 0;
        while i < self.schedule.len()
            invariant
                0 < self.schedule.len(),
                i <= self.schedule.len(),
                len == self.span(),
                forall|k: int| 0 <= k < i ==> (#[trigger] self.rows()[k]).len() == len,
            decreases self.schedule.len() - i,
        {
            if self.schedule[i].horizons.len() != len {
                assert(self.rows()[i as int].len() != self.span());
                return false;
            }
            assert(self.rows()[i as int].len() == len);
            i += 1;
        }
        true
    }

    /// Whether every horizon lies after the timestep of its announcement.
    pub fn is_ahead(&self) -> (b: bool)
        ensures
            b == self.ahead(),
    {
        let mut i: usize = 0;
        while i < self.schedule.len()
            invariant
                i <= self.schedule.len(),
                forall|k: int, t: int|
                    0 <= k < i && 0 <= t < self.rows()[k].len() ==> (#[trigger] self.rows()[k][t]) > t,
            decreases self.schedule.len() - i,
        {
            let row = &self.schedule[i].horizons;
            assert(row@ == self.rows()[i as int]);
            let mut t: usize = 0;
            while t < row.len()
                invariant
                    i < self.schedule.len(),
                    row@ == self.rows()[i as int],
                    t <= row.len(),
                    forall|u: int| 0 <= u < t ==> #[trigger] row[u] > u,
                decreases row.len() - t,
            {
                if row[t] <= t {
                    assert(!(self.rows()[i as int][t as int] > t));
                    return false;
                }
                t += 1;
            }
            assert forall|k: int, t: int|
                0 <= k < i + 1 && 0 <= t < self.rows()[k].len() implies (#[trigger] self.rows()[k][t])
                > t by {
                if k == i {
                    assert(row[t] > t);
                }
            }
            i += 1;
        }
        true
    }

    /// The horizons that belong to the given agents, in their order: for each
    /// agent the first row under its name.
    pub open spec fn aligned(self, agents: Seq<Agent>) -> Seq<Seq<usize>> {
        Seq::new(agents.len(), |i: int| self.rows()[index_of(self.names(), agents[i].name@)])
    }

    /// Every one of the agents has horizons in the schedule.
    pub open spec fn knows(self, agents: Seq<Agent>) -> bool {
        forall|i: int| 0 <= i < agents.len() ==> has_name(self.names(), (#[trigger] agents[i]).name@)
    }

    /// The position of the first horizons under the given name.
    pub fn find(&self, name: &String) -> (found: Option<usize>)
        ensures
            match found {
                Some(i) => first_named(self.names(), name@, i as int),
                None => !has_name(self.names(), name@),
            },
    {
        let mut i: usize = 0;
        while i < self.schedule.len()
            invariant
                i <= self.schedule.len(),
                forall|j: int| 0 <= j < i ==> self.names()[j] != name@,
            decreases self.schedule.len() - i,
        {
            if self.schedule[i].name == *name {
                assert(self.names()[i as int] == name@);
                return Some(i);
            }
            assert(self.names()[i as int] != name@);
            i += 1;
        }
        None
    }

    /// The horizons of the given agents, in the agents' order; `None` where
    /// an agent has none.
    pub fn horizons_of(&self, agents: &Vec<Agent>) -> (found: Option<Vec<Vec<usize>>>)
        ensures
            found is Some <==> self.knows(agents@),
            found matches Some(rows) ==> Seq::new(rows@.len(), |i: int| rows@[i]@) == self.aligned(
                agents@,
            ),
    {
        let mut rows: Vec<Vec<usize>> = Vec::new();
        let mut i: usize = 0;
        while i < agents.len()
            invariant
                i <= agents.len(),
                rows.len() == i,
                forall|k: int| 0 <= k < i ==> has_name(self.names(), (#[trigger] agents[k]).name@),
                forall|k: int| 0 <= k < i ==> (#[trigger] rows[k])@ == self.aligned(agents@)[k],
            decreases agents.len() - i,
        {
            let at = match self.find(&agents[i].name) {
                Some(at) => at,
                None => {
                    return None;
                },
            };
            proof {
                lemma_first_named(self.names(), agents[i as int].name@, at as int);
            }
            let given = &self.schedule[at].horizons;
            let mut row: Vec<usize> = Vec::new();
            let mut t: usize = 0;
            while t < given.len()
                invariant
                    t <= given.len(),
                    row.len() == t,
                    forall|u: int| 0 <= u < t ==> #[trigger] row[u] == given[u],
                decreases given.len() - t,
            {
                row.push(given[t]);
                t += 1;
            }
            assert(row@ =~= self.rows()[at as int]);
            rows.push(row);
            i += 1;
        }
        assert(Seq::new(rows@.len(), |i: int| rows@[i]@) =~= self.aligned(agents@));
        Some(rows)
    }

    /// Whether some agent's horizon at time `t` differs from its horizon at
    /// `t - 1`.
    fn changes_at(&self, t: usize) -> (b: bool)
        requires
            self.uniform(),
            1 <= t < self.span(),
        ensures
            b == self.changed(t as int),
    {
        let mut i: usize = 0;
        while i < self.schedule.len()
            invariant
                i <= self.schedule.len(),
                self.uniform(),
                1 <= t < self.span(),
                forall|k: int|
                    0 <= k < i ==> (#[trigger] self.rows()[k])[t as int] == self.rows()[k][t - 1],
            decreases self.schedule.len() - i,
        {
            assert(self.rows()[i as int].len() == self.span());
            let row = &self.schedule[i].horizons;
            if row[t] != row[t - 1] {
                assert(self.rows()[i as int][t as int] != self.rows()[i as int][t - 1]);
                return true;
            }
            i += 1;
        }
        false
    }

    /// The least distance between two timesteps at which an announcement is
    /// made, where the start counts as one; the number of timesteps where no
    /// two lie that close.
    pub fn min_inter_announcement_time(&self) -> (least: usize)
        requires
            self.uniform(),
        ensures
            self.least_gap(least as int),
    {
        assert(self.rows()[0].len() == self.schedule[0].horizons.len());
        let len = self.schedule[0].horizons.len();
        let mut since: usize = 1;
        let mut least: usize = len;
        let mut t: usize = 1;
        while t < len
            invariant
                self.uniform(),
                len == self.span(),
                1 <= t,
                1 <= since <= t,
                self.announced(t - since),
                forall|u: int| #![trigger self.announced(u)] t - since < u < t ==> !self.announced(u),
                least <= len,
                forall|u: int, v: int|
                    #![trigger self.announced(u), self.announced(v)]
                    0 <= u < v < t && v < len && self.announced(u) && self.announced(v) ==> v - u
                        >= least,
                least == len || exists|u: int, v: int|
                    #![trigger self.announced(u), self.announced(v)]
                    0 <= u < v < len && self.announced(u) && self.announced(v) && v - u == least,
            decreases len - t,
        {
            if self.changes_at(t) {
                assert(self.announced(t as int));
                if since < least {
                    least = since;
                    assert(self.announced(t - since) && self.announced(t as int));
                }
                assert forall|u: int, v: int|
                    #![trigger self.announced(u), self.announced(v)]
                    0 <= u < v < t + 1 && v < len && self.announced(u) && self.announced(v) implies v
                    - u >= least by {
                    if v == t && u > t - since {
                        assert(!self.announced(u));
                    }
                }
                if least == 1 {
                    assert forall|u: int, v: int|
                        #![trigger self.announced(u), self.announced(v)]
                        0 <= u < v < self.span() && self.announced(u) && self.announced(v) implies v
                        - u >= least by {}
                    return least;
                }
                since = 1;
            } else {
                assert(!self.announced(t as int));
                since += 1;
            }
            t += 1;
        }
        least
    }

    /// The least lookahead, `horizons[t] - t - 1`, over all agents and all
    /// timesteps; 0 where there is none.
    pub fn min_lookahead(&self) -> (least: usize)
        requires
            self.ahead(),
        ensures
            self.least_lookahead(least as int),
    {
        let mut found: Option<usize> = None;
        let mut i: usize = 0;
        while i < self.schedule.len()
            invariant
                i <= self.schedule.len(),
                self.ahead(),
                forall|k: int, t: int|
                    0 <= k < i && 0 <= t < self.rows()[k].len() && found is Some ==> found->0 <= (
                    #[trigger] self.rows()[k][t]) - t - 1,
                found is Some ==> exists|k: int, t: int|
                    0 <= k < i && 0 <= t < self.rows()[k].len() && found->0 == (
                    #[trigger] self.rows()[k][t]) - t - 1,
                found is None ==> forall|k: int| 0 <= k < i ==> (#[trigger] self.rows()[k]).len() == 0,
            decreases self.schedule.len() - i,
        {
            let row = &self.schedule[i].horizons;
            assert(row@ == self.rows()[i as int]);
            let mut t: usize = 0;
            while t < row.len()
                invariant
                    i < self.schedule.len(),
                    t <= row.len(),
                    row@ == self.rows()[i as int],
                    self.ahead(),
                    forall|k: int, u: int|
                        0 <= k < i && 0 <= u < self.rows()[k].len() && found is Some ==> found->0 <= (
                        #[trigger] self.rows()[k][u]) - u - 1,
                    forall|u: int| 0 <= u < t && found is Some ==> found->0 <= (#[trigger] row[u]) - u - 1,
                    found is Some ==> exists|k: int, u: int|
                        0 <= k <= i && 0 <= u < self.rows()[k].len() && found->0 == (
                        #[trigger] self.rows()[k][u]) - u - 1,
                    found is None ==> t == 0 && forall|k: int|
                        0 <= k < i ==> (#[trigger] self.rows()[k]).len() == 0,
                decreases row.len() - t,
            {
                assert(self.rows()[i as int][t as int] > t);
                let ahead = row[t] - t - 1;
                match found {
                    Some(least) => {
                        if ahead < least {
                            found = Some(ahead);
                        }
                    },
                    None => {
                        found = Some(ahead);
                    },
                }
                assert(found->0 <= self.rows()[i as int][t as int] - t - 1);
                t += 1;
            }
            i += 1;
        }
        match found {
            Some(least) => least,
            None => 0,
        }
    }

    /// The mean lookahead over all agents and all timesteps, as the sum of
    /// the lookaheads over their number; `None` where there is no horizon at
    /// all, or where one of the two does not fit the machine's integers.
    pub fn avg_lookahead(&self) -> (mean: Option<Fraction>)
        requires
            self.ahead(),
        ensures
            mean is Some <==> 0 < self.entries(self.schedule.len() as int) <= usize::MAX
                && self.lookahead_sum(self.schedule.len() as int) <= usize::MAX,
            mean matches Some(f) ==> f.numerator == self.lookahead_sum(self.schedule.len() as int)
                && f.denominator == self.entries(self.schedule.len() as int),
    {
        let n = self.schedule.len();
        let mut sum: usize = 0;
        let mut count: usize = 0;
        let mut i: usize = 0;
        while i < n
            invariant
                n == self.schedule.len(),
                i <= n,
                self.ahead(),
                sum == self.lookahead_sum(i as int),
                count == self.entries(i as int),
            decreases n - i,
        {
            let row = &self.schedule[i].horizons;
            assert(row@ == self.rows()[i as int]);
            proof {
                assert forall|t: int| 0 <= t < row@.len() implies #[trigger] row@[t] > t by {
                    assert(self.rows()[i as int][t] > t);
                }
                self.lemma_sums_grow(i + 1, n as int);
            }
            let mut part: usize = 0;
            let mut t: usize = 0;
            while t < row.len()
                invariant
                    t <= row.len(),
                    forall|u: int| 0 <= u < row@.len() ==> #[trigger] row@[u] > u,
                    part == row_lookahead(row@, t as int),
                    i < n,
                    n == self.schedule.len(),
                    row@ == self.rows()[i as int],
                    self.lookahead_sum(i + 1) <= self.lookahead_sum(n as int),
                    0 <= self.lookahead_sum(i as int),
                decreases row.len() - t,
            {
                let ahead = row[t] - t - 1;
                proof {
                    lemma_row_lookahead_grows(row@, t + 1, row@.len() as int);
                }
                if ahead > usize::MAX - part {
                    assert(self.lookahead_sum(i + 1) == self.lookahead_sum(i as int)
                        + row_lookahead(row@, row@.len() as int));
                    return None;
                }
                part += ahead;
                t += 1;
            }
            if part > usize::MAX - sum || row.len() > usize::MAX - count {
                return None;
            }
            sum += part;
            count += row.len();
            i += 1;
        }
        if count == 0 {
            None
        } else {
            Some(Fraction { numerator: sum, denominator: count })
        }
    }
}

} // verus!
