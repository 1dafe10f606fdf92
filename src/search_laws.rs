//! Why the high-level search is exact: how a conflict-free plan relates to the nodes.
use vstd::prelude::*;
use crate::grid::{Cell, Entry, GridModel, LocationTime, blocked, latest_unconditional, triggers};
use crate::high_level::{
    Agent, Conflict, ConflictTreeNode, Constraint, agent_grid, already_held, conflict_free, constraint_entries,
    constraint_entry, edge_clash, is_conflict, lemma_blocked_concat, lemma_entries_other_agent, lemma_entry_listed,
    lemma_latest_concat, paths_view, pos, resolving_constraints, valid_agent_path, vertex_clash,
};
use crate::low_level::valid_walk;
use crate::cbs::is_solution;

verus! {

/// `p`, read with its agent waiting at the end, breaks constraint `c`.
pub open spec fn breaks(c: Constraint, p: Seq<Cell>) -> bool {
    match c.prev_location {
        None => pos(p, c.time as int) == c.location,
        Some(q) => c.time >= 1 && pos(p, c.time as int) == c.location && pos(p, c.time - 1) == q,
    }
}

/// Every path of `q` is valid for its agent under the constraints.
pub open spec fn keeps_all(scenario: GridModel, cons: Seq<Constraint>, agents: Seq<Agent>, q: Seq<Seq<Cell>>) -> bool {
    &&& q.len() == agents.len()
    &&& forall|i: int| 0 <= i < agents.len() ==> #[trigger] valid_agent_path(scenario, cons, i, agents[i], q[i])
}

proof fn lemma_blocked_single(e: Entry, lt: LocationTime, prev: Cell)
    ensures
        blocked(seq![e], lt, prev) == triggers(e, lt, prev),
{
    if triggers(e, lt, prev) {
        assert(triggers(seq![e][0], lt, prev));
    }
}

/// The latest unconditional time at the goal is no earlier than that of any entry.
proof fn lemma_latest_ge(obs: Seq<Entry>, goal: Cell, j: int)
    requires
        0 <= j < obs.len(),
        obs[j].0.location == goal,
        obs[j].1.len() == 0,
    ensures
        latest_unconditional(obs, goal) >= obs[j].0.time,
    decreases obs.len(),
{
    if j < obs.len() - 1 {
        lemma_latest_ge(obs.drop_last(), goal, j);
    }
}

/// A valid path that does not break a new constraint on its agent stays valid.
pub proof fn lemma_valid_push(scenario: GridModel, cons: Seq<Constraint>, a: int, agent: Agent, p: Seq<Cell>, c: Constraint)
    requires
        valid_agent_path(scenario, cons, a, agent, p),
        c.agent == a,
        c.time >= 0,
        !breaks(c, p),
    ensures
        valid_agent_path(scenario, cons.push(c), a, agent, p),
{
    let ce = constraint_entries(cons, a);
    let e = constraint_entry(c);
    let s = scenario.obstacles;
    assert(cons.push(c).drop_last() =~= cons);
    assert(constraint_entries(cons.push(c), a) == ce.push(e));
    let g1 = agent_grid(scenario, cons, a, agent);
    let g2 = agent_grid(scenario, cons.push(c), a, agent);
    assert(g2.obstacles =~= ce + (seq![e] + s));
    assert(g1.obstacles == ce + s);
    assert forall|k: int| 1 <= k < p.len() implies #[trigger] g2.valid_step(
        p[k - 1],
        p[k],
        crate::high_level::agent_start(agent).time + k,
    ) by {
        assert(g1.valid_step(p[k - 1], p[k], crate::high_level::agent_start(agent).time + k));
        let lt = LocationTime { location: p[k], time: k as i32 };
        let lp = LocationTime { location: p[k], time: -1i32 };
        lemma_blocked_concat(ce, s, lt, p[k - 1]);
        lemma_blocked_concat(ce, s, lp, p[k - 1]);
        lemma_blocked_concat(ce, seq![e] + s, lt, p[k - 1]);
        lemma_blocked_concat(ce, seq![e] + s, lp, p[k - 1]);
        lemma_blocked_concat(seq![e], s, lt, p[k - 1]);
        lemma_blocked_concat(seq![e], s, lp, p[k - 1]);
        lemma_blocked_single(e, lt, p[k - 1]);
        lemma_blocked_single(e, lp, p[k - 1]);
        if triggers(e, lt, p[k - 1]) {
            assert(c.time == k);
            assert(pos(p, k) == p[k]);
            match c.prev_location {
                Some(q) => {
                    assert(e.1 == seq![q]);
                    let x = choose|x: int| 0 <= x < e.1.len() && e.1[x] == p[k - 1];
                    assert(pos(p, k - 1) == p[k - 1]);
                },
                None => {},
            }
        }
    }
    assert(ce.push(e).drop_last() =~= ce);
    assert(ce.push(e).last() == e);
    lemma_latest_concat(ce.push(e), s, agent.goal);
    lemma_latest_concat(ce, s, agent.goal);
    if e.0.location == agent.goal && e.1.len() == 0 && p.len() - 1 <= c.time {
        assert(c.prev_location is None);
        assert(pos(p, c.time as int) == p.last());
    }
}

/// A valid path keeps a constraint that its node holds: at a step inside the path, or,
/// for a vertex constraint, at or after its last step.
pub proof fn lemma_held_kept(scenario: GridModel, cons: Seq<Constraint>, a: int, agent: Agent, p: Seq<Cell>, k: int)
    requires
        valid_agent_path(scenario, cons, a, agent, p),
        0 <= k < cons.len(),
        cons[k].agent == a,
        (1 <= cons[k].time < p.len()) || (cons[k].prev_location is None && cons[k].time >= p.len() - 1),
    ensures
        !breaks(cons[k], p),
{
    let c = cons[k];
    let ce = constraint_entries(cons, a);
    let s = scenario.obstacles;
    let g = agent_grid(scenario, cons, a, agent);
    if breaks(c, p) {
        lemma_entry_listed(cons, a, k);
        let j = choose|j: int| 0 <= j < ce.len() && ce[j] == constraint_entry(c);
        assert((ce + s)[j] == ce[j]);
        if 1 <= c.time < p.len() {
            let t = c.time as int;
            assert(valid_walk(g, p, 0));
            assert(g.valid_step(p[t - 1], p[t], 0 + t));
            let lt = LocationTime { location: p[t], time: t as i32 };
            assert(pos(p, t) == p[t]);
            match c.prev_location {
                Some(q) => {
                    assert(pos(p, t - 1) == p[t - 1]);
                    assert(constraint_entry(c).1 == seq![q]);
                    assert(seq![q][0] == q);
                },
                None => {},
            }
            assert(triggers((ce + s)[j], lt, p[t - 1]));
        } else {
            assert(pos(p, c.time as int) == p.last());
            lemma_latest_ge(ce + s, agent.goal, j);
        }
    }
}

/// A conflict-free plan that keeps a node's constraints keeps, with them, one of the
/// constraints that resolve any conflict of the node, and that constraint is new.
pub proof fn lemma_split(scenario: GridModel, agents: Seq<Agent>, node: ConflictTreeNode, k: int, q: Seq<Seq<Cell>>)
    requires
        node.wf(scenario, agents),
        0 <= k < node.conflicts@.len(),
        keeps_all(scenario, node.constraints@, agents, q),
        conflict_free(q),
    ensures
        exists|c: Constraint|
            #[trigger] resolving_constraints(node.conflicts@[k]).contains(c) && !already_held(node.constraints@, c)
                && keeps_all(scenario, node.constraints@.push(c), agents, q),
{
    let pv = paths_view(node.paths@);
    let cons = node.constraints@;
    let conflict = node.conflicts@[k];
    assert(is_conflict(pv, conflict));
    let res = resolving_constraints(conflict);
    let (a1, a2) = match conflict {
        Conflict::Vertex(v) => (v.agent1 as int, v.agent2 as int),
        Conflict::Edge(e) => (e.agent1 as int, e.agent2 as int),
    };
    assert(pv[a1] == node.paths@[a1]@);
    assert(pv[a2] == node.paths@[a2]@);
    assert(valid_agent_path(scenario, cons, a1, agents[a1], pv[a1]));
    assert(valid_agent_path(scenario, cons, a2, agents[a2], pv[a2]));
    assert(valid_agent_path(scenario, cons, a1, agents[a1], q[a1]));
    assert(valid_agent_path(scenario, cons, a2, agents[a2], q[a2]));
    assert(!vertex_clash(q, a1, a2, 0));
    let x: int = match conflict {
        Conflict::Vertex(v) => {
            if v.time == 0 {
                assert(pos(pv[a1], 0) == pv[a1][0]);
                assert(pos(pv[a2], 0) == pv[a2][0]);
                assert(pos(q[a1], 0) == q[a1][0]);
                assert(pos(q[a2], 0) == q[a2][0]);
            }
            assert(!vertex_clash(q, a1, a2, v.time as int));
            if breaks(res[0], q[a1]) {
                1
            } else {
                0
            }
        },
        Conflict::Edge(e) => {
            assert(!vertex_clash(q, a1, a2, e.time as int));
            assert(!edge_clash(q, a1, a2, e.time as int));
            if breaks(res[0], q[a1]) {
                1
            } else {
                0
            }
        },
    };
    let c = res[x];
    let a = c.agent as int;
    assert(res.contains(c));
    assert(!breaks(c, q[a]));
    let p = pv[a];
    // the node's own path breaks `c` and its vertex form, so neither is held
    let vc = Constraint { prev_location: None, ..c };
    if cons.contains(c) {
        let j = choose|j: int| 0 <= j < cons.len() && cons[j] == c;
        if c.prev_location is Some {
            assert(pos(p, c.time - 1) != pos(p, c.time as int));
        }
        lemma_held_kept(scenario, cons, a, agents[a], p, j);
    }
    if cons.contains(vc) {
        let j = choose|j: int| 0 <= j < cons.len() && cons[j] == vc;
        if c.prev_location is Some {
            assert(pos(p, c.time - 1) != pos(p, c.time as int));
        }
        lemma_held_kept(scenario, cons, a, agents[a], p, j);
    }
    assert forall|i: int| 0 <= i < agents.len() implies #[trigger] valid_agent_path(scenario, cons.push(c), i, agents[i], q[i]) by {
        assert(valid_agent_path(scenario, cons, i, agents[i], q[i]));
        if i == a {
            lemma_valid_push(scenario, cons, a, agents[a], q[a], c);
        } else {
            lemma_entries_other_agent(cons, c, i);
            assert(agent_grid(scenario, cons.push(c), i, agents[i]) == agent_grid(scenario, cons, i, agents[i]));
        }
    }
}


/// A solution in which every agent starts on the grid.
pub open spec fn grid_solution(scenario: GridModel, agents: Seq<Agent>, q: Seq<Seq<Cell>>) -> bool {
    &&& is_solution(scenario, agents, q)
    &&& forall|i: int| 0 <= i < agents.len() ==> #[trigger] scenario.in_bounds(agents[i].start)
}

/// A solution keeps the empty set of constraints.
pub proof fn lemma_solution_keeps(scenario: GridModel, agents: Seq<Agent>, q: Seq<Seq<Cell>>)
    requires
        is_solution(scenario, agents, q),
    ensures
        keeps_all(scenario, Seq::empty(), agents, q),
{
    assert forall|i: int| 0 <= i < agents.len() implies #[trigger] valid_agent_path(scenario, Seq::empty(), i, agents[i], q[i]) by {
        assert(valid_agent_path(scenario, Seq::empty(), i, agents[i], q[i]));
    }
}

/// Under constraints that a solution on the grid keeps, every agent can be planned for.
pub proof fn lemma_plannable(scenario: GridModel, cons: Seq<Constraint>, agents: Seq<Agent>, q: Seq<Seq<Cell>>)
    requires
        keeps_all(scenario, cons, agents, q),
        grid_solution(scenario, agents, q),
    ensures
        forall|i: int| 0 <= i < agents.len() ==> !#[trigger] ConflictTreeNode::unplannable(scenario, cons, i, agents[i]),
{
    assert forall|i: int| 0 <= i < agents.len() implies !#[trigger] ConflictTreeNode::unplannable(scenario, cons, i, agents[i]) by {
        assert(valid_agent_path(scenario, cons, i, agents[i], q[i]));
        assert(scenario.in_bounds(agents[i].start));
    }
}

/// Paths no longer, one by one, have no larger sum of lengths.
pub proof fn lemma_sum_le(a: Seq<Seq<Cell>>, b: Seq<Seq<Cell>>)
    requires
        a.len() == b.len(),
        forall|i: int| 0 <= i < a.len() ==> (#[trigger] a[i]).len() <= b[i].len(),
    ensures
        crate::high_level::sum_of_costs(a) <= crate::high_level::sum_of_costs(b),
    decreases a.len(),
{
    if a.len() > 0 {
        assert forall|i: int| 0 <= i < a.len() - 1 implies (#[trigger] a.drop_last()[i]).len() <= b.drop_last()[i].len() by {
            assert(a.drop_last()[i] == a[i]);
            assert(b.drop_last()[i] == b[i]);
        }
        lemma_sum_le(a.drop_last(), b.drop_last());
        assert(a.last() == a[a.len() - 1]);
        assert(b.last() == b[b.len() - 1]);
    }
}

/// A node whose paths are all shortest under constraints that a plan keeps costs no more
/// than the plan.
pub proof fn lemma_node_cost_le(scenario: GridModel, agents: Seq<Agent>, node: ConflictTreeNode, q: Seq<Seq<Cell>>)
    requires
        node.paths@.len() == agents.len(),
        crate::high_level::all_shortest(scenario, agents, node),
        keeps_all(scenario, node.constraints@, agents, q),
    ensures
        crate::high_level::sum_of_costs(paths_view(node.paths@)) <= crate::high_level::sum_of_costs(q),
{
    let pv = paths_view(node.paths@);
    assert forall|i: int| 0 <= i < pv.len() implies (#[trigger] pv[i]).len() <= q[i].len() by {
        assert(pv[i] == node.paths@[i]@);
        assert(crate::high_level::shortest_for(scenario, node.constraints@, i, agents[i], node.paths@[i]@));
        assert(valid_agent_path(scenario, node.constraints@, i, agents[i], q[i]));
    }
    lemma_sum_le(pv, q);
}

} // verus!
