//! Conflict prioritisation: cardinal conflicts first, by the agents' MDDs.
use vstd::prelude::*;
use crate::grid::{Cell, Grid, GridModel};
use crate::high_level::{Agent, Conflict, Path, conflict_agent_pair, conflict_agents, is_conflict, paths_view};
use crate::mdd::{MDDError, has_path, in_layer, is_mdd, mdd};

verus! {

#[derive(Debug, Clone, Copy, PartialEq, Eq)]
pub enum ConflictCardinality {
    /// Both agents' MDD layers at the conflict time are single cells.
    Cardinal,
    /// One of them is.
    SemiCardinal,
    /// Neither is.
    NonCardinal,
}

pub open spec fn rank(c: ConflictCardinality) -> int {
    match c {
        ConflictCardinality::Cardinal => 0,
        ConflictCardinality::SemiCardinal => 1,
        ConflictCardinality::NonCardinal => 2,
    }
}

pub open spec fn conflict_time(c: Conflict) -> int {
    match c {
        Conflict::Vertex(v) => v.time as int,
        Conflict::Edge(e) => e.time as int,
    }
}

/// The agent's MDD for paths of `c` steps exists and its layer at time `t` (its last
/// layer past its end) is a single cell.
pub open spec fn singleton_layer(grid: GridModel, agent: Agent, c: int, t: int) -> bool {
    &&& has_path(grid, agent, c)
    &&& exists|cell: Cell| #[trigger] single_cell_layer(grid, agent, c, clamp(t, c), cell)
}

pub open spec fn clamp(t: int, c: int) -> int {
    if t < c {
        t
    } else {
        c
    }
}

/// `cell` is the only cell of layer `k`.
pub open spec fn single_cell_layer(grid: GridModel, agent: Agent, c: int, k: int, cell: Cell) -> bool {
    forall|x: Cell| #[trigger] in_layer(grid, agent, c, k, x) <==> x == cell
}

pub open spec fn classify(s1: bool, s2: bool) -> ConflictCardinality {
    if s1 && s2 {
        ConflictCardinality::Cardinal
    } else if s1 || s2 {
        ConflictCardinality::SemiCardinal
    } else {
        ConflictCardinality::NonCardinal
    }
}

/// The class of a conflict, from the MDDs of its agents on the scenario for paths as long
/// as their current paths have cells.
pub open spec fn spec_cardinality(scenario: GridModel, agents: Seq<Agent>, paths: Seq<Seq<Cell>>, conflict: Conflict) -> ConflictCardinality {
    let (a1, a2) = conflict_agent_pair(conflict);
    let t = conflict_time(conflict);
    classify(
        singleton_layer(scenario, agents[a1 as int], paths[a1 as int].len() as int, t),
        singleton_layer(scenario, agents[a2 as int], paths[a2 as int].len() as int, t),
    )
}

/// Whether the layer at time `t` of an MDD is a single cell.
fn is_singleton(m: &Result<Vec<Vec<Cell>>, MDDError>, t: i32, grid: Ghost<GridModel>, agent: Ghost<Agent>, c: Ghost<int>) -> (r: bool)
    requires
        is_mdd(*m, grid@, agent@, c@),
        0 <= t,
    ensures
        r == singleton_layer(grid@, agent@, c@, t as int),
{
    match m {
        Ok(layers) => {
            let k: usize = if (t as usize) < layers.len() {
                t as usize
            } else {
                layers.len() - 1
            };
            let ghost kk: int = clamp(t as int, c@);
            assert(k == kk);
            let l = &layers[k];
            proof {
                assert(l@.no_duplicates());
                if l@.len() == 1 {
                    assert forall|x: Cell| #[trigger] in_layer(grid@, agent@, c@, kk, x) <==> x == l@[0] by {
                        assert(layers@[kk]@.contains(x) <==> in_layer(grid@, agent@, c@, kk, x));
                        if l@.contains(x) {
                            let i = choose|i: int| 0 <= i < l@.len() && l@[i] == x;
                        }
                        assert(l@.contains(l@[0]));
                    }
                    assert(single_cell_layer(grid@, agent@, c@, kk, l@[0]));
                } else if singleton_layer(grid@, agent@, c@, t as int) {
                    let cell = choose|cell: Cell| #[trigger] single_cell_layer(grid@, agent@, c@, kk, cell);
                    assert(in_layer(grid@, agent@, c@, kk, cell));
                    assert(layers@[kk]@.contains(cell));
                    assert(l@.len() >= 2);
                    assert(l@[0] != l@[1]);
                    assert(layers@[kk]@.contains(l@[0]));
                    assert(layers@[kk]@.contains(l@[1]));
                    assert(in_layer(grid@, agent@, c@, kk, l@[0]));
                    assert(in_layer(grid@, agent@, c@, kk, l@[1]));
                }
            }
            l.len() == 1
        },
        Err(_) => false,
    }
}

/// The class of `conflict` by the MDDs of its two agents.
pub fn cardinality(scenario: &Grid, agents: &Vec<Agent>, paths: &Vec<Path>, conflict: &Conflict) -> (r: ConflictCardinality)
    requires
        paths@.len() == agents@.len(),
        is_conflict(paths_view(paths@), *conflict),
        forall|i: int| 0 <= i < paths@.len() ==> (#[trigger] paths@[i])@.len() <= i32::MAX,
    ensures
        r == spec_cardinality(scenario@, agents@, paths_view(paths@), *conflict),
{
    let (a1, a2) = conflict_agents(conflict);
    let t: i32 = match conflict {
        Conflict::Vertex(v) => v.time,
        Conflict::Edge(e) => e.time,
    };
    proof {
        assert(paths_view(paths@)[a1 as int] == paths@[a1 as int]@);
        assert(paths_view(paths@)[a2 as int] == paths@[a2 as int]@);
    }
    let c1 = paths[a1].len() as i32;
    let c2 = paths[a2].len() as i32;
    let m1 = mdd(&agents[a1], scenario, c1);
    let m2 = mdd(&agents[a2], scenario, c2);
    let s1 = is_singleton(&m1, t, Ghost(scenario@), Ghost(agents@[a1 as int]), Ghost(c1 as int));
    let s2 = is_singleton(&m2, t, Ghost(scenario@), Ghost(agents@[a2 as int]), Ghost(c2 as int));
    if s1 && s2 {
        ConflictCardinality::Cardinal
    } else if s1 || s2 {
        ConflictCardinality::SemiCardinal
    } else {
        ConflictCardinality::NonCardinal
    }
}

fn rank_of(c: ConflictCardinality) -> (r: u8)
    ensures
        r == rank(c),
{
    match c {
        ConflictCardinality::Cardinal => 0,
        ConflictCardinality::SemiCardinal => 1,
        ConflictCardinality::NonCardinal => 2,
    }
}

/// The index of the first conflict of the lowest class: cardinal, then semi-cardinal,
/// then non-cardinal. `None` when there is no conflict.
pub fn pick_conflict(scenario: &Grid, agents: &Vec<Agent>, paths: &Vec<Path>, conflicts: &Vec<Conflict>) -> (r: Option<usize>)
    requires
        paths@.len() == agents@.len(),
        forall|k: int| 0 <= k < conflicts@.len() ==> is_conflict(paths_view(paths@), #[trigger] conflicts@[k]),
        forall|i: int| 0 <= i < paths@.len() ==> (#[trigger] paths@[i])@.len() <= i32::MAX,
    ensures
        r is None <==> conflicts@.len() == 0,
        r matches Some(k) ==> k < conflicts@.len() && forall|j: int|
            0 <= j < conflicts@.len() ==> rank(spec_cardinality(scenario@, agents@, paths_view(paths@), #[trigger] conflicts@[j]))
                >= rank(spec_cardinality(scenario@, agents@, paths_view(paths@), conflicts@[k as int])) && (j < k ==> rank(
                spec_cardinality(scenario@, agents@, paths_view(paths@), conflicts@[j]),
            ) > rank(spec_cardinality(scenario@, agents@, paths_view(paths@), conflicts@[k as int]))),
{
    if conflicts.len() == 0 {
        return None;
    }
    let ghost pv = paths_view(paths@);
    let mut best: usize = 0;
    let mut best_rank: u8 = rank_of(cardinality(scenario, agents, paths, &conflicts[0]));
    let mut i: usize = 1;
    while i < conflicts.len() && best_rank > 0
        invariant
            best < i <= conflicts@.len(),
            pv == paths_view(paths@),
            paths@.len() == agents@.len(),
            forall|k: int| 0 <= k < conflicts@.len() ==> is_conflict(pv, #[trigger] conflicts@[k]),
            forall|k: int| 0 <= k < paths@.len() ==> (#[trigger] paths@[k])@.len() <= i32::MAX,
            best_rank == rank(spec_cardinality(scenario@, agents@, pv, conflicts@[best as int])),
            forall|j: int| 0 <= j < i ==> rank(spec_cardinality(scenario@, agents@, pv, #[trigger] conflicts@[j])) >= best_rank,
            forall|j: int| 0 <= j < best ==> rank(spec_cardinality(scenario@, agents@, pv, #[trigger] conflicts@[j])) > best_rank,
        decreases conflicts@.len() - i,
    {
        let r = rank_of(cardinality(scenario, agents, paths, &conflicts[i]));
        if r < best_rank {
            best = i;
            best_rank = r;
        }
        i += 1;
    }
    proof {
        assert forall|j: int| 0 <= j < conflicts@.len() implies rank(spec_cardinality(scenario@, agents@, pv, #[trigger] conflicts@[j])) >= best_rank by {
            if j >= i {
                assert(best_rank == 0);
                assert(rank(spec_cardinality(scenario@, agents@, pv, conflicts@[j])) >= 0);
            }
        }
    }
    Some(best)
}

} // verus!
