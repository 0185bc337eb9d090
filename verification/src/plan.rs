//! A scenario under analysis: the instance, the nominal paths and the
//! announcement horizons of its agents, row by row in the agents' order.

use crate::inputs::{
    agent_names, Agent, Announcements, Coordinate, GridMap, MapfInstance, MapfSolution,
};
use crate::table::{rows, Table};
use vstd::prelude::*;

verus! {

/// The horizons that a vector of rows holds.
pub open spec fn horizon_rows(horizons: Seq<Vec<usize>>) -> Seq<Seq<usize>> {
    Seq::new(horizons.len(), |i: int| horizons[i]@)
}

/// The three inputs fit together: no obstacle is listed twice, and every
/// agent of the instance has a path of at least `makespan + 2` positions and
/// horizons for at least the timesteps up to the makespan.
pub open spec fn consistent(
    instance: MapfInstance,
    solution: MapfSolution,
    announcements: Announcements,
) -> bool {
    &&& solution.statistics.makespan + 2 <= usize::MAX
    &&& instance.map.distinct()
    &&& solution.knows(instance.agents@)
    &&& announcements.knows(instance.agents@)
    &&& forall|i: int|
        0 <= i < instance.agents.len() ==> (#[trigger] solution.aligned(instance.agents@)[i]).len()
            >= solution.statistics.makespan + 2
    &&& forall|i: int|
        0 <= i < instance.agents.len() ==> (#[trigger] announcements.aligned(
            instance.agents@,
        )[i]).len() >= solution.statistics.makespan + 1
}

/// The derived metrics of the inputs can be taken: every path of the
/// solution spans the makespan, and the announcements hold, for at least one
/// agent and for the same timesteps for all, horizons that lie ahead.
pub open spec fn measurable(solution: MapfSolution, announcements: Announcements) -> bool {
    solution.spans() && announcements.uniform() && announcements.ahead()
}

/// Whether the three inputs fit together and their metrics can be taken.
pub fn ready(instance: &MapfInstance, solution: &MapfSolution, announcements: &Announcements) -> (b:
    bool)
    ensures
        b == (consistent(*instance, *solution, *announcements) && measurable(*solution, *announcements)),
{
    Scenario::new(instance, solution, announcements).is_some() && solution.has_span()
        && announcements.is_uniform() && announcements.is_ahead()
}

/// The inputs of an analysis, resolved by the agents' names.
pub struct Scenario {
    /// The agents' names.
    pub names: Vec<String>,
    pub map: GridMap,
    pub makespan: usize,
    /// `paths[i][t]`: where agent `i` stands at time `t` by its plan.
    pub paths: Vec<Vec<Coordinate>>,
    /// `horizons[i][t]`: the first timestep that agent `i` has not disclosed
    /// at time `t`.
    pub horizons: Vec<Vec<usize>>,
}

impl Scenario {
    /// The agents' names, in their order.
    pub open spec fn agents(self) -> Seq<Seq<char>> {
        Seq::new(self.names.len() as nat, |i: int| self.names[i]@)
    }

    /// The nominal paths as a table.
    pub open spec fn table(self) -> Table {
        rows(self.paths@)
    }

    /// The announcement horizons, row by row.
    pub open spec fn announced(self) -> Seq<Seq<usize>> {
        horizon_rows(self.horizons@)
    }

    /// Every agent has a name, a path of at least `makespan + 2` positions
    /// and horizons for the timesteps up to the makespan.
    pub open spec fn wf(self) -> bool {
        &&& self.makespan + 2 <= usize::MAX
        &&& self.paths.len() == self.names.len()
        &&& self.horizons.len() == self.names.len()
        &&& forall|i: int|
            0 <= i < self.names.len() ==> (#[trigger] self.paths[i]).len() >= self.makespan + 2
        &&& forall|i: int|
            0 <= i < self.names.len() ==> (#[trigger] self.horizons[i]).len() >= self.makespan + 1
    }

    /// The scenario is the one that the three inputs give.
    pub open spec fn reflects(
        self,
        instance: MapfInstance,
        solution: MapfSolution,
        announcements: Announcements,
    ) -> bool {
        &&& self.wf()
        &&& self.agents() == agent_names(instance.agents@)
        &&& self.map.dimensions == instance.map.dimensions
        &&& self.map.obstacles@ == instance.map.obstacles@
        &&& self.makespan == solution.statistics.makespan
        &&& self.table() == solution.aligned(instance.agents@)
        &&& self.announced() == announcements.aligned(instance.agents@)
    }

    /// Agent `d` goes under another name than agent `a`: it is one of the
    /// defenders when `a` attacks.
    pub open spec fn opposes(self, a: int, d: int) -> bool {
        self.names[d]@ != self.names[a]@
    }

    /// Whether agent `d` goes under another name than agent `a`.
    pub fn defends(&self, a: usize, d: usize) -> (b: bool)
        requires
            a < self.names.len(),
            d < self.names.len(),
        ensures
            b == self.opposes(a as int, d as int),
    {
        !(self.names[d] == self.names[a])
    }

    /// Brings the three inputs together; `None` where they do not fit.
    pub fn new(instance: &MapfInstance, solution: &MapfSolution, announcements: &Announcements) -> (found:
        Option<Scenario>)
        ensures
            found is Some <==> consistent(*instance, *solution, *announcements),
            found matches Some(s) ==> s.reflects(*instance, *solution, *announcements),
    {
        let agents = &instance.agents;
        let makespan = solution.statistics.makespan;
        if makespan > usize::MAX - 2 || !instance.map.has_distinct_obstacles() {
            return None;
        }
        let paths = match solution.paths_of(agents) {
            Some(paths) => paths,
            None => {
                return None;
            },
        };
        let horizons = match announcements.horizons_of(agents) {
            Some(horizons) => horizons,
            None => {
                return None;
            },
        };
        assert(rows(paths@).len() == paths.len());
        assert(horizon_rows(horizons@).len() == horizons.len());
        let mut names: Vec<String> = Vec::new();
        let mut i: usize = 0;
        while i < agents.len()
            invariant
                *agents == instance.agents,
                i <= agents.len(),
                paths.len() == agents.len(),
                horizons.len() == agents.len(),
                makespan == solution.statistics.makespan,
                makespan + 2 <= usize::MAX,
                rows(paths@) == solution.aligned(agents@),
                horizon_rows(horizons@) == announcements.aligned(agents@),
                names.len() == i,
                forall|k: int| 0 <= k < i ==> (#[trigger] names[k])@ == agents[k].name@,
                forall|k: int| 0 <= k < i ==> (#[trigger] paths[k]).len() >= makespan + 2,
                forall|k: int| 0 <= k < i ==> (#[trigger] horizons[k]).len() >= makespan + 1,
            decreases agents.len() - i,
        {
            assert(rows(paths@)[i as int] == paths[i as int]@);
            assert(horizon_rows(horizons@)[i as int] == horizons[i as int]@);
            if paths[i].len() < makespan + 2 || horizons[i].len() < makespan + 1 {
                assert(solution.aligned(agents@)[i as int].len() == paths[i as int].len());
                assert(announcements.aligned(agents@)[i as int].len() == horizons[i as int].len());
                return None;
            }
            names.push(agents[i].name.clone());
            i += 1;
        }
        let mut obstacles: Vec<Coordinate> = Vec::new();
        let mut k: usize = 0;
        while k < instance.map.obstacles.len()
            invariant
                k <= instance.map.obstacles.len(),
                obstacles.len() == k,
                forall|j: int| 0 <= j < k ==> obstacles[j] == instance.map.obstacles[j],
            decreases instance.map.obstacles.len() - k,
        {
            obstacles.push(instance.map.obstacles[k]);
            k += 1;
        }
        assert(obstacles@ =~= instance.map.obstacles@);
        let s = Scenario {
            names,
            map: GridMap { dimensions: instance.map.dimensions, obstacles },
            makespan,
            paths,
            horizons,
        };
        assert(s.agents() =~= agent_names(agents@));
        assert forall|i: int| 0 <= i < agents.len() implies (#[trigger] solution.aligned(
            agents@,
        )[i]).len() >= makespan + 2 by {
            assert(rows(paths@)[i] == paths[i]@);
        }
        assert forall|i: int| 0 <= i < agents.len() implies (#[trigger] announcements.aligned(
            agents@,
        )[i]).len() >= makespan + 1 by {
            assert(horizon_rows(horizons@)[i] == horizons[i]@);
        }
        Some(s)
    }
}

} // verus!
