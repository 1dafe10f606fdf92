//! The dependency-graph heuristic of the high level.
use vstd::prelude::*;
use crate::grid::{Cell, Grid, GridModel};
use crate::high_level::{Agent, ConflictTreeNode, Constraint, agent_grid, agent_grid_of, paths_view};
use crate::mdd::{MDDError, has_path, in_joint, in_layer, is_mdd, layer_at, mdd, mdd_view, merge_mdds, is_joint_mdd_empty};
use crate::vertex_cover::{MVCGraph, find_mvc, is_minimum_cover};

verus! {

/// `pair` is in layer `k` of the joint MDD of two agents, each on its own grid, for paths
/// of `c1` and `c2` steps.
pub open spec fn in_joint_layer(
    g1: GridModel,
    a1: Agent,
    c1: int,
    g2: GridModel,
    a2: Agent,
    c2: int,
    k: int,
    pair: (Cell, Cell),
) -> bool
    decreases k,
{
    &&& in_layer(g1, a1, c1, if k < c1 { k } else { c1 }, pair.0)
    &&& in_layer(g2, a2, c2, if k < c2 { k } else { c2 }, pair.1)
    &&& pair.0 != pair.1
    &&& (k <= 0 || !in_joint_layer(g1, a1, c1, g2, a2, c2, k - 1, (pair.1, pair.0)))
}

/// Agents `i` and `j` depend on each other: both have MDDs for paths as long as their
/// current ones, and in the joint MDD up to the longer of the two the last layer lacks
/// the pair of their goals or some layer is empty.
pub open spec fn dependent(
    scenario: GridModel,
    cons: Seq<Constraint>,
    agents: Seq<Agent>,
    paths: Seq<Seq<Cell>>,
    i: int,
    j: int,
) -> bool {
    let ci = paths[i].len() - 1;
    let cj = paths[j].len() - 1;
    let gi = agent_grid(scenario, cons, i, agents[i]);
    let gj = agent_grid(scenario, cons, j, agents[j]);
    let c = if ci > cj { ci } else { cj };
    &&& has_path(gi, agents[i], ci)
    &&& has_path(gj, agents[j], cj)
    &&& (!in_joint_layer(gi, agents[i], ci, gj, agents[j], cj, c, (agents[i].goal, agents[j].goal)) || exists|k: int|
        0 <= k <= c && #[trigger] joint_layer_empty(gi, agents[i], ci, gj, agents[j], cj, k))
}

/// Layer `k` of the joint MDD is empty.
pub open spec fn joint_layer_empty(g1: GridModel, a1: Agent, c1: int, g2: GridModel, a2: Agent, c2: int, k: int) -> bool {
    forall|pair: (Cell, Cell)| !#[trigger] in_joint_layer(g1, a1, c1, g2, a2, c2, k, pair)
}

/// Over MDDs that the builder gave, the joint MDD is the joint MDD of the agents.
proof fn lemma_joint_layers(
    m1: Vec<Vec<Cell>>,
    m2: Vec<Vec<Cell>>,
    g1: GridModel,
    a1: Agent,
    c1: int,
    g2: GridModel,
    a2: Agent,
    c2: int,
    k: int,
    pair: (Cell, Cell),
)
    requires
        is_mdd(Ok(m1), g1, a1, c1),
        is_mdd(Ok(m2), g2, a2, c2),
        0 <= c1,
        0 <= c2,
        0 <= k,
    ensures
        in_joint(mdd_view(m1@), mdd_view(m2@), k, pair) == in_joint_layer(g1, a1, c1, g2, a2, c2, k, pair),
    decreases k,
{
    let k1: int = if k < c1 { k } else { c1 };
    let k2: int = if k < c2 { k } else { c2 };
    if k >= 0 {
        assert(mdd_view(m1@)[k1] == m1@[k1]@);
        assert(mdd_view(m2@)[k2] == m2@[k2]@);
        assert(mdd_view(m1@).last() == m1@[c1]@);
        assert(mdd_view(m2@).last() == m2@[c2]@);
        assert(layer_at(mdd_view(m1@), k) == m1@[k1]@);
        assert(layer_at(mdd_view(m2@), k) == m2@[k2]@);
        assert(m1@[k1]@.contains(pair.0) == in_layer(g1, a1, c1, k1, pair.0));
        assert(m2@[k2]@.contains(pair.1) == in_layer(g2, a2, c2, k2, pair.1));
    }
    if k > 0 {
        lemma_joint_layers(m1, m2, g1, a1, c1, g2, a2, c2, k - 1, (pair.1, pair.0));
    }
}

/// The MDD of agent `i` on its own grid for paths as long as its current one.
pub fn compute_agent_mdd(node: &ConflictTreeNode, agents: &Vec<Agent>, scenario: &Grid, i: usize) -> (r: Result<Vec<Vec<Cell>>, MDDError>)
    requires
        i < agents@.len(),
        node.paths@.len() == agents@.len(),
        1 <= node.paths@[i as int]@.len() <= i32::MAX,
    ensures
        is_mdd(r, agent_grid(scenario@, node.constraints@, i as int, agents@[i as int]), agents@[i as int], node.paths@[i as int]@.len() - 1),
{
    let c = node.paths[i].len() as i32 - 1;
    let grid = agent_grid_of(scenario, &node.constraints, i, &agents[i]);
    mdd(&agents[i], &grid, c)
}

/// Whether agents `i` and `j` of the node depend on each other. An agent without an MDD
/// leaves the pair independent.
pub fn are_agents_dependent(node: &ConflictTreeNode, agents: &Vec<Agent>, scenario: &Grid, i: usize, j: usize) -> (r: bool)
    requires
        i < agents@.len(),
        j < agents@.len(),
        node.paths@.len() == agents@.len(),
        forall|k: int| 0 <= k < node.paths@.len() ==> 1 <= (#[trigger] node.paths@[k])@.len() <= i32::MAX,
    ensures
        r == dependent(scenario@, node.constraints@, agents@, paths_view(node.paths@), i as int, j as int),
{
    let ghost pv = paths_view(node.paths@);
    proof {
        assert(pv[i as int] == node.paths@[i as int]@);
        assert(pv[j as int] == node.paths@[j as int]@);
    }
    let ci = node.paths[i].len() as i32 - 1;
    let cj = node.paths[j].len() as i32 - 1;
    let ghost gi = agent_grid(scenario@, node.constraints@, i as int, agents@[i as int]);
    let ghost gj = agent_grid(scenario@, node.constraints@, j as int, agents@[j as int]);
    let mi = compute_agent_mdd(node, agents, scenario, i);
    let mj = compute_agent_mdd(node, agents, scenario, j);
    match (mi, mj) {
        (Ok(m1), Ok(m2)) => {
            let c = if ci > cj {
                ci
            } else {
                cj
            };
            let joint = merge_mdds(&m1, &m2, c);
            let r = is_joint_mdd_empty(&joint, agents[i].goal, agents[j].goal);
            proof {
                let ghost g1 = gi;
                let ghost g2 = gj;
                let ghost a1 = agents@[i as int];
                let ghost a2 = agents@[j as int];
                lemma_joint_layers(m1, m2, g1, a1, ci as int, g2, a2, cj as int, c as int, (a1.goal, a2.goal));
                assert(joint@.last() == joint@[c as int]);
                assert(joint@[c as int]@.contains((a1.goal, a2.goal)) == in_joint(
                    mdd_view(m1@),
                    mdd_view(m2@),
                    c as int,
                    (a1.goal, a2.goal),
                ));
                assert forall|k: int| 0 <= k <= c implies ((#[trigger] joint@[k])@.len() == 0 <==> joint_layer_empty(g1, a1, ci as int, g2, a2, cj as int, k)) by {
                    if joint@[k]@.len() != 0 {
                        let pair = joint@[k]@[0];
                        assert(joint@[k]@.contains(pair));
                        lemma_joint_layers(m1, m2, g1, a1, ci as int, g2, a2, cj as int, k, pair);
                    } else {
                        assert forall|pair: (Cell, Cell)| !#[trigger] in_joint_layer(g1, a1, ci as int, g2, a2, cj as int, k, pair) by {
                            assert(!joint@[k]@.contains(pair));
                            lemma_joint_layers(m1, m2, g1, a1, ci as int, g2, a2, cj as int, k, pair);
                        }
                    }
                }
                if exists|k: int| 0 <= k < joint@.len() && (#[trigger] joint@[k])@.len() == 0 {
                    let k = choose|k: int| 0 <= k < joint@.len() && (#[trigger] joint@[k])@.len() == 0;
                    assert(joint_layer_empty(g1, a1, ci as int, g2, a2, cj as int, k));
                }
                if exists|k: int| 0 <= k <= c && #[trigger] joint_layer_empty(g1, a1, ci as int, g2, a2, cj as int, k) {
                    let k = choose|k: int| 0 <= k <= c && #[trigger] joint_layer_empty(g1, a1, ci as int, g2, a2, cj as int, k);
                    assert(joint@[k]@.len() == 0);
                }
            }
            r
        },
        _ => false,
    }
}

/// The graph whose edges are the dependent pairs `(i, j)`, `i < j`, of the node's agents.
pub fn dependency_graph(node: &ConflictTreeNode, agents: &Vec<Agent>, scenario: &Grid) -> (r: MVCGraph)
    requires
        node.paths@.len() == agents@.len(),
        forall|k: int| 0 <= k < node.paths@.len() ==> 1 <= (#[trigger] node.paths@[k])@.len() <= i32::MAX,
    ensures
        forall|e: (usize, usize)| #[trigger] r.edges@.contains(e) <==> e.0 < e.1 < agents@.len() && dependent(
            scenario@,
            node.constraints@,
            agents@,
            paths_view(node.paths@),
            e.0 as int,
            e.1 as int,
        ),
{
    let n = agents.len();
    let mut g = MVCGraph::new();
    let mut i: usize = 0;
    while i < n
        invariant
            i <= n,
            n == agents@.len(),
            node.paths@.len() == agents@.len(),
            forall|k: int| 0 <= k < node.paths@.len() ==> 1 <= (#[trigger] node.paths@[k])@.len() <= i32::MAX,
            forall|e: (usize, usize)| #[trigger] g.edges@.contains(e) <==> e.0 < i && e.0 < e.1 < n && dependent(
                scenario@,
                node.constraints@,
                agents@,
                paths_view(node.paths@),
                e.0 as int,
                e.1 as int,
            ),
        decreases n - i,
    {
        let mut j: usize = i + 1;
        while j < n
            invariant
                i < j <= n,
                n == agents@.len(),
                node.paths@.len() == agents@.len(),
                forall|k: int| 0 <= k < node.paths@.len() ==> 1 <= (#[trigger] node.paths@[k])@.len() <= i32::MAX,
                forall|e: (usize, usize)| #[trigger] g.edges@.contains(e) <==> e.0 < n && e.1 < n && e.0 < e.1 && (e.0 < i || (e.0 == i
                    && e.1 < j)) && dependent(
                    scenario@,
                    node.constraints@,
                    agents@,
                    paths_view(node.paths@),
                    e.0 as int,
                    e.1 as int,
                ),
            decreases n - j,
        {
            let ghost before = g.edges@;
            if are_agents_dependent(node, agents, scenario, i, j) {
                g.add_edge(i, j);
            }
            proof {
                assert forall|e: (usize, usize)| #[trigger] g.edges@.contains(e) <==> e.0 < n && e.1 < n && e.0 < e.1 && (e.0 < i || (
                    e.0 == i && e.1 < j + 1)) && dependent(
                    scenario@,
                    node.constraints@,
                    agents@,
                    paths_view(node.paths@),
                    e.0 as int,
                    e.1 as int,
                ) by {
                    if before.contains(e) {
                        let x = choose|x: int| 0 <= x < before.len() && before[x] == e;
                        assert(g.edges@[x] == e);
                    }
                    if g.edges@.contains(e) && !before.contains(e) {
                        let x = choose|x: int| 0 <= x < g.edges@.len() && g.edges@[x] == e;
                        assert(x == before.len());
                    }
                    if e == (i, j) && g.edges@.len() > before.len() {
                        assert(g.edges@[before.len() as int] == e);
                    }
                }
            }
            j += 1;
        }
        i += 1;
    }
    g
}

/// The heuristic value of a node: the size of a minimum vertex cover of its agents'
/// dependency graph.
pub fn dg_heuristic(node: &ConflictTreeNode, agents: &Vec<Agent>, scenario: &Grid) -> (r: usize)
    requires
        node.paths@.len() == agents@.len(),
        forall|k: int| 0 <= k < node.paths@.len() ==> 1 <= (#[trigger] node.paths@[k])@.len() <= i32::MAX,
    ensures
        exists|edges: Seq<(usize, usize)>, cover: Seq<usize>|
            {
                &&& forall|e: (usize, usize)| #[trigger] edges.contains(e) <==> e.0 < e.1 < agents@.len() && dependent(
                    scenario@,
                    node.constraints@,
                    agents@,
                    paths_view(node.paths@),
                    e.0 as int,
                    e.1 as int,
                )
                &&& is_minimum_cover(cover, edges)
                &&& r == cover.len()
            },
{
    let g = dependency_graph(node, agents, scenario);
    let cover = find_mvc(&g);
    cover.len()
}

} // verus!
