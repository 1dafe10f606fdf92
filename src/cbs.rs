//! The high-level search over conflict-tree nodes and its configuration.
use vstd::prelude::*;
use crate::grid::{Cell, Grid, GridModel};
use crate::search_laws::{grid_solution, keeps_all, lemma_node_cost_le, lemma_plannable, lemma_solution_keeps, lemma_split};
use crate::high_level::{Constraint, all_shortest, already_held, given_path, given_valid, resolving_constraints, shortest_for, sum_of_costs};
use crate::high_level::{Agent, ConflictTreeNode, Path, conflict_free, pos, paths_view, valid_agent_path, lemma_valid_path_len, lemma_valid_without_constraints};

verus! {

/// What a search can fail with.
#[derive(Debug)]
pub enum SearchError {
    InvalidArguments(String),
    /// The open set ran empty without a goal.
    NotFound,
}

#[derive(Debug)]
pub enum CBSError {
    /// The instance was solved before.
    AlreadySolved,
    /// The search failed.
    Search(SearchError),
    /// The search expanded as many nodes as a `usize` counts without finishing.
    ExpansionLimit,
}

/// The heuristic of the high-level search.
#[derive(Debug, Clone, Copy, PartialEq, Eq)]
pub enum HighLevelHeuristic {
    /// No estimate.
    ZeroHeuristic,
    /// The size of a minimum vertex cover of the agents' dependency graph.
    DGHeuristic,
}

#[derive(Debug, Clone, Copy)]
pub struct DiagonalSubsolverConfig {
    pub slackness: i32,
    pub promotion_enabled: bool,
}

impl DiagonalSubsolverConfig {
    pub fn new(slackness: i32, promotion_enabled: bool) -> (r: Self)
        ensures
            r.slackness == slackness,
            r.promotion_enabled == promotion_enabled,
    {
        Self { slackness, promotion_enabled }
    }
}

/// Which optimisations the search uses.
#[derive(Debug, Clone, Copy)]
pub struct CBSOptimisationConfig {
    pub priotising_conflicts: bool,
    pub bypassing_conflicts: bool,
    pub diagonal_subsolver: Option<DiagonalSubsolverConfig>,
    pub conflict_avoidance_table: bool,
    pub heuristic: HighLevelHeuristic,
}

impl CBSOptimisationConfig {
    /// Without a heuristic the zero heuristic is used.
    pub fn new(
        priotising_conflicts: bool,
        bypassing_conflicts: bool,
        diagonal_subsolver: Option<DiagonalSubsolverConfig>,
        conflict_avoidance_table: bool,
        high_level_heuristic: Option<HighLevelHeuristic>,
    ) -> (r: Self)
        ensures
            r.priotising_conflicts == priotising_conflicts,
            r.bypassing_conflicts == bypassing_conflicts,
            r.diagonal_subsolver == diagonal_subsolver,
            r.conflict_avoidance_table == conflict_avoidance_table,
            r.heuristic == (match high_level_heuristic {
                Some(h) => h,
                None => HighLevelHeuristic::ZeroHeuristic,
            }),
    {
        CBSOptimisationConfig {
            priotising_conflicts,
            bypassing_conflicts,
            diagonal_subsolver,
            conflict_avoidance_table,
            heuristic: match high_level_heuristic {
                Some(h) => h,
                None => HighLevelHeuristic::ZeroHeuristic,
            },
        }
    }
}

/// A grid and the agents that move on it.
pub struct CBSInstance {
    pub map: Grid,
    pub agents: Vec<Agent>,
}

impl CBSInstance {
    pub fn new(map: Grid, agents: Vec<Agent>) -> (r: Self)
        ensures
            r.map == map,
            r.agents == agents,
    {
        CBSInstance { map, agents }
    }
}

/// The configuration under which the search returns a cheapest solution: no diagonal
/// subsolver and the zero heuristic.
pub open spec fn exact_search(config: CBSOptimisationConfig) -> bool {
    config.diagonal_subsolver is None && config.heuristic == HighLevelHeuristic::ZeroHeuristic
}

/// A solution: one path per agent, each valid on the grid alone, and no two in conflict.
pub open spec fn is_solution(scenario: GridModel, agents: Seq<Agent>, paths: Seq<Seq<Cell>>) -> bool {
    &&& paths.len() == agents.len()
    &&& forall|i: int| 0 <= i < agents.len() ==> valid_agent_path(scenario, Seq::empty(), i, agents[i], #[trigger] paths[i])
    &&& conflict_free(paths)
}

/// What a solution guarantees, in plain terms: every path starts on its agent's start,
/// ends on its goal after the goal's last unconditional obstacle, and moves by single
/// steps or waits; no two agents share a cell at any time (an agent stays on its goal
/// once it is there) and no two swap cells in one step.
pub proof fn lemma_solution_laws(scenario: GridModel, agents: Seq<Agent>, paths: Seq<Seq<Cell>>)
    requires
        is_solution(scenario, agents, paths),
    ensures
        forall|i: int| 0 <= i < agents.len() ==> (#[trigger] paths[i])[0] == agents[i].start && paths[i].last() == agents[i].goal,
        forall|i: int, s: int|
            0 <= i < agents.len() && 1 <= s < paths[i].len() ==> crate::grid::adjacent_or_same(#[trigger] paths[i][s - 1], paths[i][s]),
        forall|i: int|
            0 <= i < agents.len() ==> (#[trigger] paths[i]).len() - 1 > crate::grid::latest_unconditional(scenario.obstacles, agents[i].goal),
        forall|i: int, j: int, t: int|
            0 <= i < agents.len() && 0 <= j < agents.len() && i != j && 0 <= t ==> #[trigger] pos(paths[i], t) != #[trigger] pos(paths[j], t),
        forall|i: int, j: int, t: int|
            0 <= i < agents.len() && 0 <= j < agents.len() && i != j && 1 <= t ==> !(#[trigger] pos(paths[i], t - 1) == #[trigger] pos(paths[j], t)
                && pos(paths[i], t) == pos(paths[j], t - 1)),
{
    assert forall|i: int| 0 <= i < agents.len() implies (#[trigger] paths[i]).len() - 1 > crate::grid::latest_unconditional(
        scenario.obstacles,
        agents[i].goal,
    ) by {
        assert(valid_agent_path(scenario, Seq::empty(), i, agents[i], paths[i]));
        assert(crate::high_level::constraint_entries(Seq::<crate::high_level::Constraint>::empty(), i) =~= Seq::<crate::grid::Entry>::empty());
        assert(crate::high_level::agent_grid(scenario, Seq::empty(), i, agents[i]).obstacles =~= scenario.obstacles);
    }
    assert forall|i: int, s: int|
        0 <= i < agents.len() && 1 <= s < paths[i].len() implies crate::grid::adjacent_or_same(#[trigger] paths[i][s - 1], paths[i][s]) by {
        assert(valid_agent_path(scenario, Seq::empty(), i, agents[i], paths[i]));
        let g = crate::high_level::agent_grid(scenario, Seq::empty(), i, agents[i]);
        assert(g.valid_step(paths[i][s - 1], paths[i][s], crate::high_level::agent_start(agents[i]).time + s));
    }
    assert forall|i: int, j: int, t: int|
        0 <= i < agents.len() && 0 <= j < agents.len() && i != j && 0 <= t implies #[trigger] pos(paths[i], t) != #[trigger] pos(paths[j], t) by {
        assert(!crate::high_level::vertex_clash(paths, i, j, t));
    }
    assert forall|i: int, j: int, t: int|
        0 <= i < agents.len() && 0 <= j < agents.len() && i != j && 1 <= t implies !(#[trigger] pos(paths[i], t - 1) == #[trigger] pos(paths[j], t)
            && pos(paths[i], t) == pos(paths[j], t - 1)) by {
        assert(!crate::high_level::vertex_clash(paths, i, j, t));
        assert(!crate::high_level::edge_clash(paths, i, j, t));
    }
}

pub struct CBS {
    pub instance: CBSInstance,
    pub solved: bool,
    pub high_level_generated: usize,
    pub low_level_generated: usize,
    pub optimisation_config: CBSOptimisationConfig,
}

/// Every path has between one and `i32::MAX` cells.
fn paths_fit(paths: &Vec<Path>) -> (r: bool)
    ensures
        r ==> forall|k: int| 0 <= k < paths@.len() ==> 1 <= (#[trigger] paths@[k])@.len() <= i32::MAX,
{
    let mut i: usize = 0;
    while i < paths.len()
        invariant
            i <= paths@.len(),
            forall|k: int| 0 <= k < i ==> 1 <= (#[trigger] paths@[k])@.len() <= i32::MAX,
        decreases paths@.len() - i,
    {
        if paths[i].len() == 0 || paths[i].len() > i32::MAX as usize {
            return false;
        }
        i += 1;
    }
    true
}

/// A node waiting in the open set, with its cost and heuristic value.
struct OpenNode {
    node: ConflictTreeNode,
    g: u128,
    h: u64,
}

/// Whether `a` goes before `b`: smaller `g + h`, then larger `g`, then more constraints,
/// then fewer conflicts.
fn goes_before(a: &OpenNode, b: &OpenNode) -> (r: bool)
    requires
        a.g <= 0xffff_ffff_ffff_ffff_ffff_ffff_ffff,
        b.g <= 0xffff_ffff_ffff_ffff_ffff_ffff_ffff,
    ensures
        r ==> a.g + a.h <= b.g + b.h,
        !r ==> b.g + b.h <= a.g + a.h,
{
    let fa = a.g + a.h as u128;
    let fb = b.g + b.h as u128;
    if fa != fb {
        return fa < fb;
    }
    if a.g != b.g {
        return a.g > b.g;
    }
    let (ca, cb) = (a.node.constraints.len(), b.node.constraints.len());
    if ca != cb {
        return ca > cb;
    }
    a.node.conflicts.len() < b.node.conflicts.len()
}

/// The index of the first node of the open set that no other goes before.
fn best_open(open: &Vec<OpenNode>) -> (r: usize)
    requires
        open@.len() > 0,
        forall|k: int| 0 <= k < open@.len() ==> (#[trigger] open@[k]).g <= 0xffff_ffff_ffff_ffff_ffff_ffff_ffff,
    ensures
        r < open@.len(),
        forall|k: int| 0 <= k < open@.len() ==> open@[r as int].g + open@[r as int].h <= (#[trigger] open@[k]).g + open@[k].h,
{
    let mut best: usize = 0;
    let mut i: usize = 1;
    while i < open.len()
        invariant
            best < i <= open@.len(),
            forall|k: int| 0 <= k < i ==> open@[best as int].g + open@[best as int].h <= (#[trigger] open@[k]).g + open@[k].h,
            forall|k: int| 0 <= k < open@.len() ==> (#[trigger] open@[k]).g <= 0xffff_ffff_ffff_ffff_ffff_ffff_ffff,
        decreases open@.len() - i,
    {
        if goes_before(&open[i], &open[best]) {
            best = i;
        }
        i += 1;
    }
    best
}

impl CBS {
    /// Runs the high-level best-first search and gives each agent's path, by agent
    /// index. Whenever the agents start on the grid and a solution exists, it finds one,
    /// unless it expanded as many nodes as a `usize` counts; without the diagonal
    /// subsolver and with the zero heuristic, the one it finds is cheapest. A second call
    /// fails with `AlreadySolved`.
    pub fn solve(&mut self) -> (r: Result<Vec<Path>, CBSError>)
        ensures
            final(self).solved,
            final(self).instance == old(self).instance,
            old(self).solved ==> (r matches Err(CBSError::AlreadySolved)) && *final(self) == *old(self),
            !old(self).solved ==> !(r matches Err(CBSError::AlreadySolved)),
            r matches Ok(paths) ==> is_solution(old(self).instance.map@, old(self).instance.agents@, paths_view(paths@)),
            r matches Ok(paths) ==> exact_search(old(self).optimisation_config) ==> forall|q: Seq<Seq<Cell>>|
                #[trigger] grid_solution(old(self).instance.map@, old(self).instance.agents@, q) ==> sum_of_costs(
                    paths_view(paths@),
                ) <= sum_of_costs(q),
            r matches Err(CBSError::Search(SearchError::NotFound)) ==> forall|q: Seq<Seq<Cell>>|
                !#[trigger] grid_solution(old(self).instance.map@, old(self).instance.agents@, q),
            !old(self).solved && (exists|q: Seq<Seq<Cell>>| #[trigger] grid_solution(old(self).instance.map@, old(self).instance.agents@, q))
                ==> r is Ok || r matches Err(CBSError::ExpansionLimit),
            r matches Err(CBSError::ExpansionLimit) ==> final(self).high_level_generated == usize::MAX,
    {
        if self.solved {
            return Err(CBSError::AlreadySolved);
        }
        self.solved = true;
        let config = self.optimisation_config;
        let n = self.instance.agents.len();
        let mut pre: Vec<Option<Path>> = Vec::new();
        let mut i: usize = 0;
        while i < n
            invariant
                i <= n,
                pre@.len() == i,
                forall|j: int| 0 <= j < i ==> (#[trigger] pre@[j]) is None,
            decreases n - i,
        {
            pre.push(None);
            i += 1;
        }
        let ghost scenario = self.instance.map@;
        let ghost agents = self.instance.agents@;
        let ghost exact = exact_search(config);
        assert(config == old(self).optimisation_config);
        let ghost fresh = config.diagonal_subsolver is None;
        let ghost pre_v = pre@;
        let root_cons: Vec<Constraint> = Vec::new();
        let ghost rc = root_cons@;
        assert(rc =~= Seq::<Constraint>::empty());
        let root = match ConflictTreeNode::new(
            &self.instance.agents,
            root_cons,
            pre,
            &self.instance.map,
            config.diagonal_subsolver,
            config.conflict_avoidance_table,
        ) {
            Some(node) => node,
            None => {
                proof {
                    assert forall|q: Seq<Seq<Cell>>| !#[trigger] grid_solution(scenario, agents, q) by {
                        if grid_solution(scenario, agents, q) {
                            lemma_solution_keeps(scenario, agents, q);
                            lemma_plannable(scenario, Seq::empty(), agents, q);
                        }
                    }
                }
                return Err(CBSError::Search(SearchError::NotFound));
            },
        };
        proof {
            assert(root.constraints@ =~= Seq::<Constraint>::empty());
            if fresh {
                assert forall|i: int| 0 <= i < agents.len() implies #[trigger] shortest_for(
                    scenario,
                    root.constraints@,
                    i,
                    agents[i],
                    root.paths@[i]@,
                ) by {
                    assert(given_path(pre_v, i).len() == 0);
                    assert(!given_valid(scenario, root.constraints@, agents, pre_v, i));
                }
            }
        }
        let mut open: Vec<OpenNode> = Vec::new();
        self.push_open(&mut open, root);
        proof {
            assert forall|q: Seq<Seq<Cell>>| #[trigger] grid_solution(scenario, agents, q) implies exists|k: int|
                0 <= k < open@.len() && keeps_all(scenario, open@[k].node.constraints@, agents, q) by {
                lemma_solution_keeps(scenario, agents, q);
                assert(keeps_all(scenario, open@[0].node.constraints@, agents, q));
            }
        }
        let mut budget: usize = usize::MAX;
        while budget > 0
            invariant
                self.solved,
                !old(self).solved,
                self.instance == old(self).instance,
                scenario == self.instance.map@,
                agents == self.instance.agents@,
                forall|k: int| 0 <= k < open@.len() ==> (#[trigger] open@[k]).node.wf(scenario, agents),
                forall|k: int| 0 <= k < open@.len() ==> (#[trigger] open@[k]).g <= 0xffff_ffff_ffff_ffff_ffff_ffff_ffff,
                self.high_level_generated == usize::MAX || open@.len() + (usize::MAX - budget) <= self.high_level_generated,
                self.optimisation_config == config,
                config == old(self).optimisation_config,
                exact == exact_search(config),
                fresh == (config.diagonal_subsolver is None),
                forall|k: int| 0 <= k < open@.len() ==> (#[trigger] open@[k]).g == sum_of_costs(paths_view(open@[k].node.paths@)),
                exact ==> forall|k: int| 0 <= k < open@.len() ==> (#[trigger] open@[k]).h == 0,
                fresh ==> forall|k: int| 0 <= k < open@.len() ==> all_shortest(scenario, agents, (#[trigger] open@[k]).node),
                forall|q: Seq<Seq<Cell>>| #[trigger] grid_solution(scenario, agents, q) ==> exists|k: int|
                    0 <= k < open@.len() && keeps_all(scenario, open@[k].node.constraints@, agents, q),
            decreases budget,
        {
            budget -= 1;
            if open.len() == 0 {
                return Err(CBSError::Search(SearchError::NotFound));
            }
            let best = best_open(&open);
            let ghost old_open = open@;
            let entry = open.remove(best);
            assert(entry == old_open[best as int]);
            proof {
                assert(entry.node.wf(scenario, agents));
            }
            if entry.node.conflicts.len() == 0 {
                proof {
                    let pv = paths_view(entry.node.paths@);
                    assert forall|i: int| 0 <= i < agents.len() implies valid_agent_path(scenario, Seq::empty(), i, agents[i], #[trigger] pv[i]) by {
                        assert(pv[i] == entry.node.paths@[i]@);
                        lemma_valid_without_constraints(scenario, entry.node.constraints@, i, agents[i], pv[i]);
                    }
                    if exact {
                        assert forall|q: Seq<Seq<Cell>>| #[trigger] grid_solution(scenario, agents, q) implies sum_of_costs(pv) <= sum_of_costs(q) by {
                            let kk = choose|kk: int| 0 <= kk < old_open.len() && keeps_all(scenario, old_open[kk].node.constraints@, agents, q);
                            assert(old_open[kk].node.wf(scenario, agents));
                            assert(all_shortest(scenario, agents, old_open[kk].node));
                            lemma_node_cost_le(scenario, agents, old_open[kk].node, q);
                            assert(old_open[kk].h == 0);
                            assert(old_open[best as int].h == 0);
                            assert(old_open[best as int].g + old_open[best as int].h <= old_open[kk].g + old_open[kk].h);
                            assert(old_open[kk].g == sum_of_costs(paths_view(old_open[kk].node.paths@)));
                            assert(entry.g == sum_of_costs(pv));
                        }
                    }
                }
                return Ok(entry.node.paths);
            }
            let k: usize = if config.priotising_conflicts && paths_fit(&entry.node.paths) {
                match crate::prioritisation::pick_conflict(
                    &self.instance.map,
                    &self.instance.agents,
                    &entry.node.paths,
                    &entry.node.conflicts,
                ) {
                    Some(k) => k,
                    None => 0,
                }
            } else {
                0
            };
            let mut children = entry.node.expand(
                &self.instance.agents,
                &self.instance.map,
                k,
                config.diagonal_subsolver,
                config.conflict_avoidance_table,
                config.bypassing_conflicts,
            );
            proof {
                assert forall|q: Seq<Seq<Cell>>| #[trigger] grid_solution(scenario, agents, q) implies (exists|j: int|
                    0 <= j < open@.len() && keeps_all(scenario, open@[j].node.constraints@, agents, q)) || (exists|j: int|
                    0 <= j < children@.len() && keeps_all(scenario, children@[j].constraints@, agents, q)) by {
                    let kk = choose|kk: int| 0 <= kk < old_open.len() && keeps_all(scenario, old_open[kk].node.constraints@, agents, q);
                    if kk < best {
                        assert(open@[kk] == old_open[kk]);
                    } else if kk > best {
                        assert(open@[kk - 1] == old_open[kk]);
                    } else {
                        lemma_split(scenario, agents, entry.node, k as int, q);
                        let c = choose|c: Constraint|
                            #[trigger] resolving_constraints(entry.node.conflicts@[k as int]).contains(c) && !already_held(
                                entry.node.constraints@,
                                c,
                            ) && keeps_all(scenario, entry.node.constraints@.push(c), agents, q);
                        lemma_plannable(scenario, entry.node.constraints@.push(c), agents, q);
                        if children@.len() == 1 && children@[0].constraints@ == entry.node.constraints@ {
                            assert(keeps_all(scenario, children@[0].constraints@, agents, q));
                        } else {
                            let j = choose|j: int| 0 <= j < children@.len() && (#[trigger] children@[j]).constraints@
                                == entry.node.constraints@.push(c);
                            assert(keeps_all(scenario, children@[j].constraints@, agents, q));
                        }
                    }
                }
            }
            while children.len() > 0
                invariant
                    self.solved,
                    !old(self).solved,
                    self.instance == old(self).instance,
                    scenario == self.instance.map@,
                    agents == self.instance.agents@,
                    forall|k: int| 0 <= k < open@.len() ==> (#[trigger] open@[k]).node.wf(scenario, agents),
                    forall|k: int| 0 <= k < open@.len() ==> (#[trigger] open@[k]).g <= 0xffff_ffff_ffff_ffff_ffff_ffff_ffff,
                self.high_level_generated == usize::MAX || open@.len() + (usize::MAX - budget) <= self.high_level_generated,
                    forall|k: int| 0 <= k < children@.len() ==> (#[trigger] children@[k]).wf(scenario, agents),
                self.optimisation_config == config,
                config == old(self).optimisation_config,
                exact == exact_search(config),
                fresh == (config.diagonal_subsolver is None),
                forall|k: int| 0 <= k < open@.len() ==> (#[trigger] open@[k]).g == sum_of_costs(paths_view(open@[k].node.paths@)),
                exact ==> forall|k: int| 0 <= k < open@.len() ==> (#[trigger] open@[k]).h == 0,
                fresh ==> forall|k: int| 0 <= k < open@.len() ==> all_shortest(scenario, agents, (#[trigger] open@[k]).node),
                    fresh ==> forall|k: int| 0 <= k < children@.len() ==> all_shortest(scenario, agents, #[trigger] children@[k]),
                    forall|q: Seq<Seq<Cell>>| #[trigger] grid_solution(scenario, agents, q) ==> (exists|j: int|
                        0 <= j < open@.len() && keeps_all(scenario, open@[j].node.constraints@, agents, q)) || (exists|j: int|
                        0 <= j < children@.len() && keeps_all(scenario, children@[j].constraints@, agents, q)),
                decreases children@.len(),
            {
                let ghost old_children = children@;
                let ghost before = open@;
                let child = children.remove(0);
                self.push_open(&mut open, child);
                proof {
                    assert forall|q: Seq<Seq<Cell>>| #[trigger] grid_solution(scenario, agents, q) implies (exists|j: int|
                        0 <= j < open@.len() && keeps_all(scenario, open@[j].node.constraints@, agents, q)) || (exists|j: int|
                        0 <= j < children@.len() && keeps_all(scenario, children@[j].constraints@, agents, q)) by {
                        if exists|j: int| 0 <= j < before.len() && keeps_all(scenario, before[j].node.constraints@, agents, q) {
                            let j = choose|j: int| 0 <= j < before.len() && keeps_all(scenario, before[j].node.constraints@, agents, q);
                            assert(open@[j] == before[j]);
                        } else {
                            let j = choose|j: int| 0 <= j < old_children.len() && keeps_all(scenario, old_children[j].constraints@, agents, q);
                            if j == 0 {
                                assert(open@[open@.len() - 1].node == child);
                            } else {
                                assert(children@[j - 1] == old_children[j]);
                            }
                        }
                    }
                    assert forall|k: int| 0 <= k < open@.len() implies (#[trigger] open@[k]).g == sum_of_costs(paths_view(open@[k].node.paths@)) by {
                        if k < before.len() {
                            assert(open@[k] == before[k]);
                        }
                    }
                }
            }
        }
        Err(CBSError::ExpansionLimit)
    }

    /// Adds a node to the open set, with its cost and heuristic value, and counts it.
    fn push_open(&mut self, open: &mut Vec<OpenNode>, node: ConflictTreeNode)
        requires
            node.wf(old(self).instance.map@, old(self).instance.agents@),
        ensures
            final(self).instance == old(self).instance,
            final(self).solved == old(self).solved,
            final(open)@.len() == old(open)@.len() + 1,
            forall|k: int| 0 <= k < old(open)@.len() ==> final(open)@[k] == old(open)@[k],
            final(open)@.last().node == node,
            final(open)@.last().g <= 0xffff_ffff_ffff_ffff_ffff_ffff_ffff,
            final(open)@.last().g == sum_of_costs(paths_view(node.paths@)),
            old(self).optimisation_config.heuristic == HighLevelHeuristic::ZeroHeuristic ==> final(open)@.last().h == 0,
            final(self).optimisation_config == old(self).optimisation_config,
            final(self).high_level_generated == if old(self).high_level_generated < usize::MAX {
                old(self).high_level_generated + 1
            } else {
                old(self).high_level_generated as int
            },
    {
        proof {
            assert forall|i: int| 0 <= i < node.paths@.len() implies (#[trigger] node.paths@[i])@.len() <= i32::MAX + 1 by {
                lemma_valid_path_len(
                    self.instance.map@,
                    node.constraints@,
                    i,
                    self.instance.agents@[i],
                    node.paths@[i]@,
                );
            }
        }
        let np = node.paths.len() as u64;
        let g = node.cost();
        assert(g <= 0xffff_ffff_ffff_ffff_ffff_ffff_ffff) by (nonlinear_arith)
            requires
                g <= np * 0x1_0000_0000,
                np <= 0xffff_ffff_ffff_ffff,
        ;
        let h: u64 = match self.optimisation_config.heuristic {
            HighLevelHeuristic::DGHeuristic => {
                if paths_fit(&node.paths) {
                    crate::dg_heuristic::dg_heuristic(&node, &self.instance.agents, &self.instance.map) as u64
                } else {
                    0
                }
            },
            HighLevelHeuristic::ZeroHeuristic => 0,
        };
        if self.high_level_generated < usize::MAX {
            self.high_level_generated = self.high_level_generated + 1;
        }
        if self.low_level_generated <= usize::MAX - node.low_level_generated {
            self.low_level_generated = self.low_level_generated + node.low_level_generated;
        }
        open.push(OpenNode { node, g, h });
    }

    /// Without a configuration every optimisation is off.
    pub fn new(instance: CBSInstance, optimisation_config: Option<CBSOptimisationConfig>) -> (r: Self)
        ensures
            r.instance == instance,
            !r.solved,
            r.high_level_generated == 0,
            r.low_level_generated == 0,
            r.optimisation_config == (match optimisation_config {
                Some(c) => c,
                None => CBSOptimisationConfig {
                    priotising_conflicts: false,
                    bypassing_conflicts: false,
                    diagonal_subsolver: None,
                    conflict_avoidance_table: false,
                    heuristic: HighLevelHeuristic::ZeroHeuristic,
                },
            }),
    {
        CBS {
            instance,
            solved: false,
            high_level_generated: 0,
            low_level_generated: 0,
            optimisation_config: match optimisation_config {
                Some(c) => c,
                None => CBSOptimisationConfig::new(false, false, None, false, None),
            },
        }
    }
}

} // verus!
