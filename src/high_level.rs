//! Conflict-tree nodes: constraints, the paths planned under them and their conflicts.
use vstd::prelude::*;
use crate::grid::{Cell, Entry, Grid, GridModel, LocationTime, Obstacles, entries, same_cell, copy_cells, latest_unconditional};
use crate::low_level::{reaches_goal, locations, find_shortest_path, valid_walk};
use crate::diagonal_subsolver::{CTNodePreprocessor, DiagonalSubsolver, IdentityPreprocessor};

verus! {

/// A planned path: `path[t]` is the agent's cell at time `t`.
pub type Path = Vec<Cell>;

/// An agent with its start and goal cells.
#[derive(Debug)]
pub struct Agent {
    pub id: String,
    pub start: Cell,
    pub goal: Cell,
}

/// Two agents on one cell at one time. Agents are given by their index.
#[derive(Clone, Copy, Debug)]
pub struct VertexConflict {
    pub agent1: usize,
    pub agent2: usize,
    pub time: i32,
    pub location: Cell,
}

/// `agent1` moves from `location2` to `location1` while `agent2` moves the other way,
/// arriving at `time`.
#[derive(Clone, Copy, Debug)]
pub struct EdgeConflict {
    pub agent1: usize,
    pub agent2: usize,
    pub time: i32,
    pub location1: Cell,
    pub location2: Cell,
}

#[derive(Clone, Copy, Debug)]
pub enum Conflict {
    Vertex(VertexConflict),
    Edge(EdgeConflict),
}

/// Forbids `agent` to be on `location` at `time` or, with a `prev_location`, to enter
/// `location` at `time` from it.
#[derive(Clone, Copy, Debug)]
pub struct Constraint {
    pub agent: usize,
    pub time: i32,
    pub location: Cell,
    pub prev_location: Option<Cell>,
}

impl Constraint {
    pub fn new(agent: usize, time: i32, location: Cell, prev_location: Option<Cell>) -> (r: Constraint)
        ensures
            r.agent == agent,
            r.time == time,
            r.location == location,
            r.prev_location == prev_location,
    {
        Constraint { agent, time, location, prev_location }
    }

    pub fn agent(&self) -> (r: usize)
        ensures
            r == self.agent,
    {
        self.agent
    }

    pub fn time(&self) -> (r: i32)
        ensures
            r == self.time,
    {
        self.time
    }

    pub fn location(&self) -> (r: Cell)
        ensures
            r == self.location,
    {
        self.location
    }

    pub fn prev_location(&self) -> (r: Option<Cell>)
        ensures
            r == self.prev_location,
    {
        self.prev_location
    }
}

/// Where an agent that follows `p` stands at time `t`: it waits on its last cell.
pub open spec fn pos(p: Seq<Cell>, t: int) -> Cell {
    if t < p.len() {
        p[t]
    } else {
        p.last()
    }
}

pub open spec fn paths_view(paths: Seq<Path>) -> Seq<Seq<Cell>> {
    paths.map_values(|p: Path| p@)
}

pub open spec fn vertex_clash(paths: Seq<Seq<Cell>>, i: int, j: int, t: int) -> bool {
    pos(paths[i], t) == pos(paths[j], t)
}

pub open spec fn edge_clash(paths: Seq<Seq<Cell>>, i: int, j: int, t: int) -> bool {
    &&& t >= 1
    &&& pos(paths[i], t) == pos(paths[j], t - 1)
    &&& pos(paths[i], t - 1) == pos(paths[j], t)
    &&& pos(paths[i], t) != pos(paths[j], t)
}

/// No two agents share a cell at any time, and no two swap cells in one step.
pub open spec fn conflict_free(paths: Seq<Seq<Cell>>) -> bool {
    forall|i: int, j: int, t: int|
        #![trigger vertex_clash(paths, i, j, t)]
        #![trigger edge_clash(paths, i, j, t)]
        0 <= i < paths.len() && 0 <= j < paths.len() && i != j && 0 <= t ==> !vertex_clash(paths, i, j, t)
            && !edge_clash(paths, i, j, t)
}

/// `c` describes a conflict that the paths have.
pub open spec fn is_conflict(paths: Seq<Seq<Cell>>, c: Conflict) -> bool {
    match c {
        Conflict::Vertex(v) => {
            &&& v.agent1 < paths.len() && v.agent2 < paths.len() && v.agent1 != v.agent2
            &&& 0 <= v.time
            &&& pos(paths[v.agent1 as int], v.time as int) == v.location
            &&& pos(paths[v.agent2 as int], v.time as int) == v.location
        },
        Conflict::Edge(e) => {
            &&& e.agent1 < paths.len() && e.agent2 < paths.len() && e.agent1 != e.agent2
            &&& 1 <= e.time
            &&& e.location1 != e.location2
            &&& pos(paths[e.agent1 as int], e.time as int) == e.location1
            &&& pos(paths[e.agent1 as int], e.time - 1) == e.location2
            &&& pos(paths[e.agent2 as int], e.time as int) == e.location2
            &&& pos(paths[e.agent2 as int], e.time - 1) == e.location1
        },
    }
}

/// The longest of the paths.
pub open spec fn horizon_of(paths: Seq<Seq<Cell>>) -> int
    decreases paths.len(),
{
    if paths.len() == 0 {
        0
    } else {
        let rest = horizon_of(paths.drop_last());
        if paths.last().len() > rest {
            paths.last().len() as int
        } else {
            rest
        }
    }
}

/// The conflicts found at time `t` between agent `i` and the agents before it.
pub open spec fn clash_listed(paths: Seq<Seq<Cell>>, list: Seq<Conflict>, i: int, j: int, t: int) -> bool {
    &&& vertex_clash(paths, i, j, t) ==> list.contains(
        Conflict::Vertex(VertexConflict { agent1: i as usize, agent2: j as usize, time: t as i32, location: pos(paths[i], t) }),
    )
    &&& edge_clash(paths, i, j, t) ==> list.contains(
        Conflict::Edge(
            EdgeConflict {
                agent1: i as usize,
                agent2: j as usize,
                time: t as i32,
                location1: pos(paths[i], t),
                location2: pos(paths[i], t - 1),
            },
        ),
    )
}

/// The conflict, if any, between agents `i` and `j` (`j < i`) at time `t`: a vertex
/// conflict when they share a cell, else an edge conflict when they swap cells.
pub open spec fn clash_at(pv: Seq<Seq<Cell>>, i: int, j: int, t: int) -> Seq<Conflict> {
    if pos(pv[i], t) == pos(pv[j], t) {
        seq![Conflict::Vertex(VertexConflict { agent1: i as usize, agent2: j as usize, time: t as i32, location: pos(pv[i], t) })]
    } else if t > 0 && pos(pv[i], t) == pos(pv[j], t - 1) && pos(pv[i], t - 1) == pos(pv[j], t) {
        seq![
            Conflict::Edge(
                EdgeConflict {
                    agent1: i as usize,
                    agent2: j as usize,
                    time: t as i32,
                    location1: pos(pv[i], t),
                    location2: pos(pv[i], t - 1),
                },
            ),
        ]
    } else {
        Seq::empty()
    }
}

/// The conflicts at time `t` between agent `i` and the agents `0..j`.
pub open spec fn row_part(pv: Seq<Seq<Cell>>, t: int, i: int, j: int) -> Seq<Conflict>
    decreases j,
{
    if j <= 0 {
        Seq::empty()
    } else {
        row_part(pv, t, i, j - 1) + clash_at(pv, i, j - 1, t)
    }
}

/// The conflicts at time `t` among the agents `0..i`, agent after agent.
pub open spec fn time_part(pv: Seq<Seq<Cell>>, t: int, i: int) -> Seq<Conflict>
    decreases i,
{
    if i <= 0 {
        Seq::empty()
    } else {
        time_part(pv, t, i - 1) + row_part(pv, t, i - 1, i - 1)
    }
}

/// The conflicts at the times `0..t`, time after time.
pub open spec fn all_part(pv: Seq<Seq<Cell>>, t: int) -> Seq<Conflict>
    decreases t,
{
    if t <= 0 {
        Seq::empty()
    } else {
        all_part(pv, t - 1) + time_part(pv, t - 1, pv.len() as int)
    }
}

/// The list of conflicts of the paths, by time, then by agent pair.
pub open spec fn conflict_list(pv: Seq<Seq<Cell>>) -> Seq<Conflict> {
    all_part(pv, horizon_of(pv))
}

pub proof fn lemma_horizon_bounds(paths: Seq<Seq<Cell>>)
    ensures
        forall|i: int| 0 <= i < paths.len() ==> (#[trigger] paths[i]).len() <= horizon_of(paths),
        horizon_of(paths) >= 0,
        paths.len() > 0 ==> exists|i: int| 0 <= i < paths.len() && (#[trigger] paths[i]).len() == horizon_of(paths),
    decreases paths.len(),
{
    if paths.len() > 0 {
        lemma_horizon_bounds(paths.drop_last());
        assert forall|i: int| 0 <= i < paths.len() implies (#[trigger] paths[i]).len() <= horizon_of(paths) by {
            if i < paths.len() - 1 {
                assert(paths.drop_last()[i] == paths[i]);
            }
        }
        if paths.len() > 1 && paths.last().len() <= horizon_of(paths.drop_last()) {
            let k = choose|k: int| 0 <= k < paths.len() - 1 && (#[trigger] paths.drop_last()[k]).len() == horizon_of(paths.drop_last());
            assert(paths[k] == paths.drop_last()[k]);
        } else {
            assert(paths[paths.len() - 1] == paths.last());
        }
    }
}

/// Past the end of every path nothing changes: a clash at a time at or after the longest
/// path's last step is a vertex clash already at that last step.
pub proof fn lemma_clash_after_horizon(paths: Seq<Seq<Cell>>, i: int, j: int, t: int)
    requires
        0 <= i < paths.len(),
        0 <= j < paths.len(),
        forall|k: int| 0 <= k < paths.len() ==> (#[trigger] paths[k]).len() >= 1,
        t >= horizon_of(paths),
    ensures
        vertex_clash(paths, i, j, t) ==> vertex_clash(paths, i, j, horizon_of(paths) - 1),
        !edge_clash(paths, i, j, t),
{
    lemma_horizon_bounds(paths);
}

fn position(p: &Path, t: usize) -> (r: Cell)
    requires
        p@.len() >= 1,
    ensures
        r == pos(p@, t as int),
{
    if t < p.len() {
        p[t]
    } else {
        p[p.len() - 1]
    }
}

/// The length of the longest path.
fn longest(paths: &Vec<Path>) -> (r: usize)
    ensures
        r == horizon_of(paths_view(paths@)),
{
    let mut r: usize = 0;
    let mut i: usize = 0;
    while i < paths.len()
        invariant
            i <= paths@.len(),
            r == horizon_of(paths_view(paths@.take(i as int))),
        decreases paths@.len() - i,
    {
        proof {
            assert(paths_view(paths@.take(i + 1)).drop_last() =~= paths_view(paths@.take(i as int)));
        }
        if paths[i].len() > r {
            r = paths[i].len();
        }
        i += 1;
    }
    proof {
        assert(paths@.take(i as int) =~= paths@);
    }
    r
}

/// All conflicts of `paths`, by time, then by agent pair.
pub fn find_conflicts(paths: &Vec<Path>) -> (r: Vec<Conflict>)
    requires
        forall|k: int| 0 <= k < paths@.len() ==> 1 <= (#[trigger] paths@[k])@.len() <= i32::MAX + 1,
    ensures
        forall|k: int| 0 <= k < r@.len() ==> is_conflict(paths_view(paths@), #[trigger] r@[k]),
        forall|i: int, j: int, t: int|
            0 <= j < i < paths@.len() && 0 <= t < horizon_of(paths_view(paths@)) ==> #[trigger] clash_listed(
                paths_view(paths@),
                r@,
                i,
                j,
                t,
            ),
        r@.len() == 0 <==> conflict_free(paths_view(paths@)),
        r@ == conflict_list(paths_view(paths@)),
{
    let ghost pv = paths_view(paths@);
    let n = paths.len();
    let hz = longest(paths);
    proof {
        lemma_horizon_bounds(pv);
        assert forall|k: int| 0 <= k < n implies (#[trigger] pv[k]).len() >= 1 by {
            assert(pv[k] == paths@[k]@);
        }
        if n > 0 {
            let k = choose|k: int| 0 <= k < pv.len() && (#[trigger] pv[k]).len() == horizon_of(pv);
            assert(pv[k] == paths@[k]@);
        }
    }
    let mut r: Vec<Conflict> = Vec::new();
    let mut t: usize = 0;
    while t < hz
        invariant
            pv == paths_view(paths@),
            n == paths@.len(),
            hz == horizon_of(pv),
            hz <= i32::MAX + 1,
            t <= hz,
            forall|k: int| 0 <= k < paths@.len() ==> 1 <= (#[trigger] paths@[k])@.len() <= i32::MAX + 1,
            forall|k: int| 0 <= k < r@.len() ==> is_conflict(pv, #[trigger] r@[k]),
            forall|i: int, j: int, s: int| 0 <= j < i < n && 0 <= s < t ==> #[trigger] clash_listed(pv, r@, i, j, s),
            r@ == all_part(pv, t as int),
        decreases hz - t,
    {
        let mut i: usize = 0;
        while i < n
            invariant
                pv == paths_view(paths@),
                n == paths@.len(),
                hz == horizon_of(pv),
                hz <= i32::MAX + 1,
                t < hz,
                i <= n,
                forall|k: int| 0 <= k < paths@.len() ==> 1 <= (#[trigger] paths@[k])@.len() <= i32::MAX + 1,
                forall|k: int| 0 <= k < r@.len() ==> is_conflict(pv, #[trigger] r@[k]),
                forall|a: int, j: int, s: int|
                    0 <= j < a < n && (0 <= s < t || (s == t && a < i)) ==> #[trigger] clash_listed(pv, r@, a, j, s),
                r@ == all_part(pv, t as int) + time_part(pv, t as int, i as int),
            decreases n - i,
        {
            let mut j: usize = 0;
            while j < i
                invariant
                    pv == paths_view(paths@),
                    n == paths@.len(),
                    hz == horizon_of(pv),
                    hz <= i32::MAX + 1,
                    t < hz,
                    j <= i < n,
                    forall|k: int| 0 <= k < paths@.len() ==> 1 <= (#[trigger] paths@[k])@.len() <= i32::MAX + 1,
                    forall|k: int| 0 <= k < r@.len() ==> is_conflict(pv, #[trigger] r@[k]),
                    forall|a: int, b: int, s: int|
                        0 <= b < a < n && (0 <= s < t || (s == t && a < i) || (s == t && a == i && b < j))
                            ==> #[trigger] clash_listed(pv, r@, a, b, s),
                    r@ == all_part(pv, t as int) + time_part(pv, t as int, i as int) + row_part(pv, t as int, i as int, j as int),
                decreases i - j,
            {
                proof {
                    assert(pv[i as int] == paths@[i as int]@);
                    assert(pv[j as int] == paths@[j as int]@);
                }
                let ghost old_r = r@;
                let here_i = position(&paths[i], t);
                let here_j = position(&paths[j], t);
                if same_cell(here_i, here_j) {
                    r.push(
                        Conflict::Vertex(VertexConflict { agent1: i, agent2: j, time: t as i32, location: here_i }),
                    );
                } else if t > 0 {
                    let before_i = position(&paths[i], t - 1);
                    let before_j = position(&paths[j], t - 1);
                    if same_cell(here_i, before_j) && same_cell(before_i, here_j) {
                        r.push(
                            Conflict::Edge(
                                EdgeConflict {
                                    agent1: i,
                                    agent2: j,
                                    time: t as i32,
                                    location1: here_i,
                                    location2: before_i,
                                },
                            ),
                        );
                    }
                }
                proof {
                    assert(r@ =~= old_r + clash_at(pv, i as int, j as int, t as int));
                    assert forall|a: int, b: int, s: int|
                        0 <= b < a < n && (0 <= s < t || (s == t && a < i) || (s == t && a == i && b < j + 1))
                            implies #[trigger] clash_listed(pv, r@, a, b, s) by {
                        if !(s == t && a == i && b == j) {
                            assert(clash_listed(pv, old_r, a, b, s));
                            assert forall|c: Conflict| old_r.contains(c) implies r@.contains(c) by {
                                let k = choose|k: int| 0 <= k < old_r.len() && old_r[k] == c;
                                assert(r@[k] == c);
                            }
                        } else {
                            if r@.len() > old_r.len() {
                                assert(r@[r@.len() - 1] == r@.last());
                            }
                        }
                    }
                }
                j += 1;
            }
            proof {
                assert(r@ =~= all_part(pv, t as int) + time_part(pv, t as int, i + 1));
            }
            i += 1;
        }
        proof {
            assert(pv.len() == n);
            assert(r@ =~= all_part(pv, t + 1));
        }
        t += 1;
    }
    proof {
        if r@.len() == 0 {
            assert forall|i: int, j: int, s: int|
                #![trigger vertex_clash(pv, i, j, s)]
                #![trigger edge_clash(pv, i, j, s)]
                0 <= i < pv.len() && 0 <= j < pv.len() && i != j && 0 <= s implies !vertex_clash(pv, i, j, s)
                    && !edge_clash(pv, i, j, s) by {
                let (a, b) = if i > j { (i, j) } else { (j, i) };
                assert(forall|u: int, v: int, w: int| vertex_clash(pv, u, v, w) == vertex_clash(pv, v, u, w));
                if s < hz {
                    assert(clash_listed(pv, r@, a, b, s));
                    assert(!vertex_clash(pv, a, b, s));
                    assert(!edge_clash(pv, a, b, s));
                    if edge_clash(pv, i, j, s) {
                        assert(edge_clash(pv, a, b, s));
                    }
                } else {
                    assert(s >= hz);
                    lemma_clash_after_horizon(pv, a, b, s);
                    lemma_clash_after_horizon(pv, i, j, s);
                    if hz > 0 {
                        assert(clash_listed(pv, r@, a, b, hz - 1));
                    } else {
                        assert(pv[0].len() >= 1);
                    }
                }
            }
            assert(conflict_free(pv));
        } else {
            assert(is_conflict(pv, r@[0]));
            match r@[0] {
                Conflict::Vertex(v) => {
                    assert(vertex_clash(pv, v.agent1 as int, v.agent2 as int, v.time as int));
                },
                Conflict::Edge(e) => {
                    assert(edge_clash(pv, e.agent1 as int, e.agent2 as int, e.time as int));
                },
            }
            assert(!conflict_free(pv));
        }
    }
    r
}


/// The obstacle entry that stands for a constraint.
pub open spec fn constraint_entry(c: Constraint) -> Entry {
    (
        LocationTime { location: c.location, time: c.time },
        match c.prev_location {
            Some(p) => seq![p],
            None => Seq::empty(),
        },
    )
}

/// The obstacle entries of the constraints on `agent`, in order.
pub open spec fn constraint_entries(cons: Seq<Constraint>, agent: int) -> Seq<Entry>
    decreases cons.len(),
{
    if cons.len() == 0 {
        Seq::empty()
    } else {
        let rest = constraint_entries(cons.drop_last(), agent);
        if cons.last().agent == agent {
            rest.push(constraint_entry(cons.last()))
        } else {
            rest
        }
    }
}

/// The grid on which agent `i` plans: the scenario's obstacles and its own constraints.
pub open spec fn agent_grid(scenario: GridModel, cons: Seq<Constraint>, i: int, agent: Agent) -> GridModel {
    GridModel {
        width: scenario.width,
        height: scenario.height,
        obstacles: constraint_entries(cons, i) + scenario.obstacles,
        goal: agent.goal,
    }
}

pub open spec fn agent_start(agent: Agent) -> LocationTime {
    LocationTime { location: agent.start, time: 0 }
}

/// `p` leads agent `i` from its start to its goal at time 0 onwards, one legal step at a
/// time, keeps every constraint on it and ends after the last unconditional obstacle on
/// its goal.
pub open spec fn valid_agent_path(scenario: GridModel, cons: Seq<Constraint>, i: int, agent: Agent, p: Seq<Cell>) -> bool {
    reaches_goal(agent_grid(scenario, cons, i, agent), agent_start(agent), p)
}

/// The space-time cells that a path occupies after time 0.
pub open spec fn path_cat(p: Seq<Cell>) -> Seq<LocationTime> {
    Seq::new(
        if p.len() > 0 {
            (p.len() - 1) as nat
        } else {
            0
        },
        |k: int| LocationTime { location: p[k + 1], time: (k + 1) as i32 },
    )
}

/// The space-time cells that the paths occupy after time 0, path after path.
pub open spec fn paths_cat(paths: Seq<Seq<Cell>>) -> Seq<LocationTime>
    decreases paths.len(),
{
    if paths.len() == 0 {
        Seq::empty()
    } else {
        paths_cat(paths.drop_last()) + path_cat(paths.last())
    }
}

/// The agent has a path, and one of at most `i32::MAX + 1` cells.
pub proof fn lemma_valid_path_len(scenario: GridModel, cons: Seq<Constraint>, i: int, agent: Agent, p: Seq<Cell>)
    requires
        valid_agent_path(scenario, cons, i, agent, p),
    ensures
        1 <= p.len() <= i32::MAX + 1,
{
    if p.len() >= 2 {
        let k = p.len() - 1;
        let g = agent_grid(scenario, cons, i, agent);
        assert(valid_walk(g, p, agent_start(agent).time as int));
        assert(g.valid_step(p[k - 1], p[k], agent_start(agent).time + k));
    }
}

/// The obstacle entries of the constraints on `agent`.
pub fn constraints_to_obstacles(constraints: &Vec<Constraint>, agent: usize) -> (r: Obstacles)
    ensures
        entries(r@) == constraint_entries(constraints@, agent as int),
{
    let mut r: Obstacles = Vec::new();
    let mut i: usize = 0;
    while i < constraints.len()
        invariant
            i <= constraints@.len(),
            entries(r@) == constraint_entries(constraints@.take(i as int), agent as int),
        decreases constraints@.len() - i,
    {
        let c = constraints[i];
        proof {
            assert(constraints@.take(i + 1).drop_last() =~= constraints@.take(i as int));
        }
        if c.agent == agent {
            let prevs: Vec<Cell> = match c.prev_location {
                Some(p) => vec![p],
                None => Vec::new(),
            };
            let ghost old_r = r@;
            r.push((LocationTime { location: c.location, time: c.time }, prevs));
            proof {
                assert(prevs@ =~= constraint_entry(c).1);
                assert(entries(r@) =~= entries(old_r).push(constraint_entry(c)));
            }
        }
        i += 1;
    }
    proof {
        assert(constraints@.take(i as int) =~= constraints@);
    }
    r
}

/// The grid on which agent `i` plans.
pub fn agent_grid_of(scenario: &Grid, constraints: &Vec<Constraint>, i: usize, agent: &Agent) -> (r: Grid)
    ensures
        r@ == agent_grid(scenario@, constraints@, i as int, *agent),
{
    let mut obs = constraints_to_obstacles(constraints, i);
    let mut rest = crate::grid::copy_obstacles(&scenario.obstacles);
    let ghost a = obs@;
    let ghost b = rest@;
    obs.append(&mut rest);
    proof {
        assert(entries(b) =~= entries(scenario.obstacles@));
        assert(entries(obs@) =~= entries(a) + entries(b));
    }
    Grid { width: scenario.width, height: scenario.height, obstacles: obs, goal: agent.goal }
}

/// Whether `a` and `b` are the same cell or neighbours.
pub fn is_adjacent_or_same(a: Cell, b: Cell) -> (r: bool)
    ensures
        r == crate::grid::adjacent_or_same(a, b),
{
    let (ax, ay, bx, by) = (a.0 as i64, a.1 as i64, b.0 as i64, b.1 as i64);
    (ax == bx && (ay == by || ay == by + 1 || ay + 1 == by)) || (ay == by && (ax == bx + 1 || ax + 1 == bx))
}

/// Whether `p` leads from `start` to the goal of `grid` in legal steps and ends after the
/// goal's last unconditional obstacle.
pub fn check_walk(grid: &Grid, start: LocationTime, p: &Path) -> (r: bool)
    ensures
        r == reaches_goal(grid@, start, p@),
{
    if p.len() == 0 {
        return false;
    }
    let n = p.len();
    if !same_cell(p[0], start.location) || !same_cell(p[n - 1], grid.goal) {
        proof {
            assert(p@.last() == p@[n - 1]);
        }
        return false;
    }
    let mut s: usize = 1;
    while s < n
        invariant
            1 <= s <= n,
            n == p@.len(),
            s <= 0x1_0000_0000,
            forall|k: int| 1 <= k < s ==> #[trigger] grid@.valid_step(p@[k - 1], p@[k], start.time + k),
        decreases n - s,
    {
        if s as u64 >= 0x1_0000_0000u64 {
            proof {
                assert(!grid@.valid_step(p@[s - 1], p@[s as int], start.time + s));
            }
            return false;
        }
        let t: i64 = start.time as i64 + s as i64;
        if t > i32::MAX as i64 {
            proof {
                assert(!grid@.valid_step(p@[s - 1], p@[s as int], start.time + s));
            }
            return false;
        }
        if !is_adjacent_or_same(p[s - 1], p[s]) || !grid.is_valid_location_time(
            &LocationTime { location: p[s], time: t as i32 },
            &p[s - 1],
        ) {
            proof {
                assert(!grid@.valid_step(p@[s - 1], p@[s as int], start.time + s));
            }
            return false;
        }
        s += 1;
    }
    let lgot = grid.latest_goal_obstacle_time();
    start.time as i64 + (n - 1) as i64 > lgot as i64
}

/// Whether `p` is a valid path for agent `i` under the scenario and the constraints.
pub fn is_valid_agent_path(scenario: &Grid, constraints: &Vec<Constraint>, i: usize, agent: &Agent, p: &Path) -> (r: bool)
    ensures
        r == valid_agent_path(scenario@, constraints@, i as int, *agent, p@),
{
    let g = agent_grid_of(scenario, constraints, i, agent);
    check_walk(&g, LocationTime { location: agent.start, time: 0 }, p)
}


/// The cells of a timed path.
fn to_path(v: &Vec<LocationTime>) -> (r: Path)
    ensures
        r@ == locations(v@),
{
    let mut r: Path = Vec::new();
    let mut i: usize = 0;
    while i < v.len()
        invariant
            i <= v@.len(),
            r@ == locations(v@).take(i as int),
        decreases v@.len() - i,
    {
        r.push(v[i].location);
        i += 1;
        proof {
            assert(r@ =~= locations(v@).take(i as int));
        }
    }
    proof {
        assert(locations(v@).take(i as int) =~= locations(v@));
    }
    r
}

/// A node of the conflict tree: the constraints added on the way from the root, the path
/// of every agent (by index) and the conflicts among those paths.
pub struct ConflictTreeNode {
    pub constraints: Vec<Constraint>,
    pub paths: Vec<Path>,
    pub conflicts: Vec<Conflict>,
    pub low_level_generated: usize,
}

impl ConflictTreeNode {
    /// The conflict list holds exactly the conflicts of the paths: each listed conflict
    /// is real, each clash is listed, and the list is empty just when there is none.
    pub open spec fn conflicts_exact(&self) -> bool {
        let pv = paths_view(self.paths@);
        &&& forall|k: int| 0 <= k < self.conflicts@.len() ==> is_conflict(pv, #[trigger] self.conflicts@[k])
        &&& forall|i: int, j: int, t: int|
            0 <= j < i < pv.len() && 0 <= t < horizon_of(pv) ==> #[trigger] clash_listed(pv, self.conflicts@, i, j, t)
        &&& (self.conflicts@.len() == 0 <==> conflict_free(pv))
        &&& self.conflicts@ == conflict_list(pv)
    }

    /// Every agent has a valid path under the node's constraints.
    pub open spec fn paths_valid(&self, scenario: GridModel, agents: Seq<Agent>) -> bool {
        &&& self.paths@.len() == agents.len()
        &&& forall|i: int|
            0 <= i < agents.len() ==> valid_agent_path(scenario, self.constraints@, i, agents[i], #[trigger] self.paths@[i]@)
    }

    pub open spec fn wf(&self, scenario: GridModel, agents: Seq<Agent>) -> bool {
        &&& self.paths_valid(scenario, agents)
        &&& self.conflicts_exact()
    }

    /// Agent `i` cannot be planned for: its start is off the grid, or no valid path
    /// reaches its goal.
    pub open spec fn unplannable(scenario: GridModel, cons: Seq<Constraint>, i: int, agent: Agent) -> bool {
        ||| !scenario.in_bounds(agent.start)
        ||| forall|q: Seq<Cell>| !#[trigger] valid_agent_path(scenario, cons, i, agent, q)
    }

    pub fn conflicts(&self) -> (r: &Vec<Conflict>)
        ensures
            r == &self.conflicts,
    {
        &self.conflicts
    }

    /// The sum of the path lengths.
    pub fn cost(&self) -> (r: u128)
        requires
            forall|i: int| 0 <= i < self.paths@.len() ==> (#[trigger] self.paths@[i])@.len() <= i32::MAX + 1,
        ensures
            r == sum_of_costs(paths_view(self.paths@)),
            r <= self.paths@.len() * 0x1_0000_0000,
    {
        let mut r: u128 = 0;
        let mut i: usize = 0;
        while i < self.paths.len()
            invariant
                i <= self.paths@.len(),
                forall|k: int| 0 <= k < self.paths@.len() ==> (#[trigger] self.paths@[k])@.len() <= i32::MAX + 1,
                r == sum_of_costs(paths_view(self.paths@.take(i as int))),
                r <= i * 0x1_0000_0000,
            decreases self.paths@.len() - i,
        {
            proof {
                assert(paths_view(self.paths@.take(i + 1)).drop_last() =~= paths_view(self.paths@.take(i as int)));
                assert(self.paths@[i as int]@.len() <= i32::MAX + 1);
            }
            r = r + self.paths[i].len() as u128;
            i += 1;
        }
        proof {
            assert(self.paths@.take(i as int) =~= self.paths@);
        }
        r
    }

    /// Recomputes the conflict list from the paths.
    pub fn compute_conflicts(&mut self)
        requires
            forall|k: int| 0 <= k < old(self).paths@.len() ==> 1 <= (#[trigger] old(self).paths@[k])@.len() <= i32::MAX + 1,
        ensures
            final(self).conflicts_exact(),
            final(self).paths == old(self).paths,
            final(self).constraints == old(self).constraints,
            final(self).low_level_generated == old(self).low_level_generated,
    {
        self.conflicts = find_conflicts(&self.paths);
    }

    /// The conflict avoidance table of the current paths.
    pub fn build_conflict_avoidance_table(&self) -> (r: Vec<LocationTime>)
        requires
            forall|k: int| 0 <= k < self.paths@.len() ==> (#[trigger] self.paths@[k])@.len() <= i32::MAX + 1,
        ensures
            r@ == paths_cat(paths_view(self.paths@)),
    {
        let mut r: Vec<LocationTime> = Vec::new();
        let mut i: usize = 0;
        while i < self.paths.len()
            invariant
                i <= self.paths@.len(),
                forall|k: int| 0 <= k < self.paths@.len() ==> (#[trigger] self.paths@[k])@.len() <= i32::MAX + 1,
                r@ == paths_cat(paths_view(self.paths@.take(i as int))),
            decreases self.paths@.len() - i,
        {
            proof {
                assert(paths_view(self.paths@.take(i + 1)).drop_last() =~= paths_view(self.paths@.take(i as int)));
                assert(paths_view(self.paths@.take(i + 1)).last() == self.paths@[i as int]@);
            }
            Self::update_conflict_avoidance_table(&mut r, &self.paths[i]);
            i += 1;
        }
        proof {
            assert(self.paths@.take(i as int) =~= self.paths@);
        }
        r
    }

    /// Adds the space-time cells that `path` occupies after time 0.
    pub fn update_conflict_avoidance_table(conflict_avoidance_table: &mut Vec<LocationTime>, path: &Path)
        requires
            path@.len() <= i32::MAX + 1,
        ensures
            final(conflict_avoidance_table)@ == old(conflict_avoidance_table)@ + path_cat(path@),
    {
        let ghost start = conflict_avoidance_table@;
        let mut i: usize = 1;
        while i < path.len()
            invariant
                1 <= i,
                path@.len() <= i32::MAX + 1,
                i <= path@.len() || path@.len() == 0,
                path@.len() == 0 ==> i == 1,
                conflict_avoidance_table@ == start + path_cat(path@).take(i - 1),
            decreases path@.len() - i,
        {
            conflict_avoidance_table.push(LocationTime { location: path[i], time: i as i32 });
            i += 1;
            proof {
                assert(conflict_avoidance_table@ =~= start + path_cat(path@).take(i - 1));
            }
        }
        proof {
            let pc = path_cat(path@);
            if path@.len() == 0 {
                assert(pc.len() == 0);
                assert(i == 1);
                assert(pc.take(0) =~= pc);
            } else {
                assert(i == path@.len());
                assert(pc.len() == i - 1);
                assert(pc.take(i - 1) =~= pc);
            }
        }
    }

    /// The obstacle entries of the constraints on `agent`.
    pub fn constraints_to_obstacles(&self, agent: usize) -> (r: Obstacles)
        ensures
            entries(r@) == constraint_entries(self.constraints@, agent as int),
    {
        constraints_to_obstacles(&self.constraints, agent)
    }

    /// Keeps the paths that are valid, plans the others with the low level (in agent
    /// order, avoiding the table of the paths planned so far when `use_cat` is set), and
    /// tells whether every agent has a path.
    pub fn compute_paths(&mut self, agents: &Vec<Agent>, scenario: &Grid, use_cat: bool) -> (r: bool)
        requires
            old(self).paths@.len() == agents@.len(),
        ensures
            final(self).constraints == old(self).constraints,
            final(self).paths@.len() == agents@.len(),
            r ==> final(self).paths_valid(scenario@, agents@),
            r ==> forall|i: int|
                0 <= i < agents@.len() && valid_agent_path(scenario@, old(self).constraints@, i, agents@[i], old(self).paths@[i]@)
                    ==> (#[trigger] final(self).paths@[i])@ == old(self).paths@[i]@,
            r ==> forall|i: int|
                0 <= i < agents@.len() && !valid_agent_path(scenario@, old(self).constraints@, i, agents@[i], old(self).paths@[i]@)
                    ==> #[trigger] shortest_for(scenario@, old(self).constraints@, i, agents@[i], final(self).paths@[i]@),
            !r ==> exists|i: int|
                0 <= i < agents@.len() && #[trigger] Self::unplannable(scenario@, old(self).constraints@, i, agents@[i]),
    {
        let ghost orig = self.paths@;
        let n = agents.len();
        let mut i: usize = 0;
        while i < n
            invariant
                i <= n,
                n == agents@.len(),
                self.paths@.len() == n,
                orig == old(self).paths@,
                self.constraints == old(self).constraints,
                forall|k: int|
                    0 <= k < i ==> (#[trigger] self.paths@[k])@.len() == 0 || valid_agent_path(
                        scenario@,
                        self.constraints@,
                        k,
                        agents@[k],
                        self.paths@[k]@,
                    ),
                forall|k: int|
                    0 <= k < n && valid_agent_path(scenario@, self.constraints@, k, agents@[k], orig[k]@) ==> (#[trigger] self.paths@[k])@
                        == orig[k]@,
                forall|k: int|
                    0 <= k < i && !valid_agent_path(scenario@, self.constraints@, k, agents@[k], orig[k]@) ==> (#[trigger] self.paths@[k])@.len() == 0,
                forall|k: int| i <= k < n ==> #[trigger] self.paths@[k] == orig[k],
            decreases n - i,
        {
            if !is_valid_agent_path(scenario, &self.constraints, i, &agents[i], &self.paths[i]) {
                self.paths[i] = Vec::new();
            }
            i += 1;
        }
        proof {
            assert forall|k: int| 0 <= k < n implies (#[trigger] self.paths@[k])@.len() <= i32::MAX + 1 by {
                if self.paths@[k]@.len() != 0 {
                    lemma_valid_path_len(scenario@, self.constraints@, k, agents@[k], self.paths@[k]@);
                }
            }
        }
        let mut cat: Vec<LocationTime> = if use_cat {
            self.build_conflict_avoidance_table()
        } else {
            Vec::new()
        };
        let mut i: usize = 0;
        while i < n
            invariant
                i <= n,
                n == agents@.len(),
                self.paths@.len() == n,
                self.constraints == old(self).constraints,
                forall|k: int|
                    0 <= k < n ==> (#[trigger] self.paths@[k])@.len() == 0 || valid_agent_path(
                        scenario@,
                        self.constraints@,
                        k,
                        agents@[k],
                        self.paths@[k]@,
                    ),
                forall|k: int| 0 <= k < i ==> (#[trigger] self.paths@[k])@.len() != 0,
                orig == old(self).paths@,
                forall|k: int|
                    0 <= k < n && valid_agent_path(scenario@, self.constraints@, k, agents@[k], orig[k]@) ==> (#[trigger] self.paths@[k])@
                        == orig[k]@,
                forall|k: int|
                    i <= k < n && !valid_agent_path(scenario@, self.constraints@, k, agents@[k], orig[k]@) ==> (#[trigger] self.paths@[k])@.len() == 0,
                forall|k: int|
                    0 <= k < i && !valid_agent_path(scenario@, self.constraints@, k, agents@[k], orig[k]@) ==> #[trigger] shortest_for(
                        scenario@,
                        self.constraints@,
                        k,
                        agents@[k],
                        self.paths@[k]@,
                    ),
            decreases n - i,
        {
            if self.paths[i].len() == 0 {
                let agent = &agents[i];
                if !(0 <= agent.start.0 && agent.start.0 < scenario.width && 0 <= agent.start.1 && agent.start.1
                    < scenario.height) {
                    proof {
                        assert(Self::unplannable(scenario@, old(self).constraints@, i as int, agents@[i as int]));
                    }
                    return false;
                }
                let g = agent_grid_of(scenario, &self.constraints, i, agent);
                let start = LocationTime { location: agent.start, time: 0 };
                match find_shortest_path(&g, start, &cat) {
                    Some((lp, generated)) => {
                        let p = to_path(&lp);
                        proof {
                            lemma_valid_path_len(scenario@, self.constraints@, i as int, agents@[i as int], p@);
                        }
                        if use_cat {
                            Self::update_conflict_avoidance_table(&mut cat, &p);
                        }
                        proof {
                            if valid_agent_path(scenario@, self.constraints@, i as int, agents@[i as int], orig[i as int]@) {
                                lemma_valid_path_len(scenario@, self.constraints@, i as int, agents@[i as int], orig[i as int]@);
                            }
                        }
                        self.paths[i] = p;
                        if self.low_level_generated <= usize::MAX - generated {
                            self.low_level_generated = self.low_level_generated + generated;
                        }
                    },
                    None => {
                        proof {
                            assert(Self::unplannable(scenario@, old(self).constraints@, i as int, agents@[i as int]));
                        }
                        return false;
                    },
                }
            }
            i += 1;
        }
        true
    }

    /// Builds a node from its constraints and the paths already known: with the diagonal
    /// subsolver, monotone agents without a path are routed along their diagonals first;
    /// paths that are missing or not valid under the constraints are then planned by the
    /// low level, and the conflicts are found.
    /// Gives `None` when some agent cannot be planned for.
    pub fn new(
        agents: &Vec<Agent>,
        constraints: Vec<Constraint>,
        precomputed_paths: Vec<Option<Path>>,
        scenario: &Grid,
        diagonal_subsolver: Option<crate::cbs::DiagonalSubsolverConfig>,
        use_conflict_avoidance_table: bool,
    ) -> (r: Option<ConflictTreeNode>)
        ensures
            r matches Some(node) ==> node.wf(scenario@, agents@) && node.constraints@ == constraints@,
            r matches Some(node) ==> forall|i: int|
                0 <= i < agents@.len() && #[trigger] given_valid(scenario@, constraints@, agents@, precomputed_paths@, i)
                    ==> node.paths@[i]@ == given_path(precomputed_paths@, i),
            r matches Some(node) ==> diagonal_subsolver is None ==> forall|i: int|
                0 <= i < agents@.len() && !#[trigger] given_valid(scenario@, constraints@, agents@, precomputed_paths@, i)
                    ==> shortest_for(scenario@, constraints@, i, agents@[i], node.paths@[i]@),
            r is None ==> exists|i: int|
                0 <= i < agents@.len() && #[trigger] Self::unplannable(scenario@, constraints@, i, agents@[i]),
    {
        let mut paths: Vec<Path> = Vec::new();
        let mut i: usize = 0;
        while i < agents.len()
            invariant
                i <= agents@.len(),
                paths@.len() == i,
                forall|k: int| 0 <= k < i ==> (#[trigger] paths@[k])@ == given_path(precomputed_paths@, k),
            decreases agents@.len() - i,
        {
            let p: Path = if i < precomputed_paths.len() {
                match &precomputed_paths[i] {
                    Some(p) => copy_cells(p),
                    None => Vec::new(),
                }
            } else {
                Vec::new()
            };
            paths.push(p);
            i += 1;
        }
        let mut node = ConflictTreeNode { constraints, paths, conflicts: Vec::new(), low_level_generated: 0 };
        let ghost given = node.paths@;
        match diagonal_subsolver {
            Some(config) => {
                let subsolver = DiagonalSubsolver::new(config.slackness, config.promotion_enabled);
                subsolver.preprocess(agents, scenario, &node.constraints, &mut node.paths);
            },
            None => {},
        }
        let ghost before = node.paths@;
        proof {
            assert forall|k: int| 0 <= k < agents@.len() && #[trigger] given_valid(scenario@, constraints@, agents@, precomputed_paths@, k)
                implies before[k]@ == given_path(precomputed_paths@, k) by {
                lemma_valid_path_len(scenario@, constraints@, k, agents@[k], given_path(precomputed_paths@, k));
                assert(given[k]@.len() != 0);
            }
        }
        if !node.compute_paths(agents, scenario, use_conflict_avoidance_table) {
            return None;
        }
        proof {
            assert forall|k: int| 0 <= k < agents@.len() && !#[trigger] given_valid(scenario@, constraints@, agents@, precomputed_paths@, k)
                && diagonal_subsolver is None implies shortest_for(scenario@, constraints@, k, agents@[k], node.paths@[k]@) by {
                assert(before[k] == given[k]);
            }
        }
        proof {
            assert forall|k: int| 0 <= k < node.paths@.len() implies 1 <= (#[trigger] node.paths@[k])@.len() <= i32::MAX + 1 by {
                lemma_valid_path_len(scenario@, node.constraints@, k, agents@[k], node.paths@[k]@);
            }
        }
        node.compute_conflicts();
        Some(node)
    }
}

/// Whether two constraints agree in all four fields.
pub fn same_constraint(a: &Constraint, b: &Constraint) -> (r: bool)
    ensures
        r == (*a == *b),
{
    let same_prev = match (a.prev_location, b.prev_location) {
        (Some(p), Some(q)) => same_cell(p, q),
        (None, None) => true,
        _ => false,
    };
    a.agent == b.agent && a.time == b.time && same_cell(a.location, b.location) && same_prev
}

/// Whether `list` holds `c`.
pub fn contains_constraint(list: &Vec<Constraint>, c: &Constraint) -> (r: bool)
    ensures
        r == list@.contains(*c),
{
    let mut i: usize = 0;
    while i < list.len()
        invariant
            i <= list@.len(),
            forall|k: int| 0 <= k < i ==> list@[k] != *c,
        decreases list@.len() - i,
    {
        if same_constraint(&list[i], c) {
            return true;
        }
        i += 1;
    }
    false
}

/// A copy of the space-time cells.
pub fn copy_location_times(v: &Vec<LocationTime>) -> (r: Vec<LocationTime>)
    ensures
        r@ == v@,
{
    let mut r: Vec<LocationTime> = Vec::new();
    let mut i: usize = 0;
    while i < v.len()
        invariant
            i <= v@.len(),
            r@ == v@.take(i as int),
        decreases v@.len() - i,
    {
        r.push(v[i]);
        i += 1;
        proof {
            assert(r@ =~= v@.take(i as int));
        }
    }
    proof {
        assert(v@.take(i as int) =~= v@);
    }
    r
}

/// A copy of the constraints.
pub fn copy_constraints(v: &Vec<Constraint>) -> (r: Vec<Constraint>)
    ensures
        r@ == v@,
{
    let mut r: Vec<Constraint> = Vec::new();
    let mut i: usize = 0;
    while i < v.len()
        invariant
            i <= v@.len(),
            r@ == v@.take(i as int),
        decreases v@.len() - i,
    {
        r.push(v[i]);
        i += 1;
        proof {
            assert(r@ =~= v@.take(i as int));
        }
    }
    proof {
        assert(v@.take(i as int) =~= v@);
    }
    r
}

/// The paths with the one of `agent` left out.
fn paths_without(paths: &Vec<Path>, agent: usize) -> (r: Vec<Option<Path>>)
    ensures
        r@.len() == paths@.len(),
        forall|i: int| 0 <= i < paths@.len() && i != agent ==> ((#[trigger] r@[i]) matches Some(p) && p@ == paths@[i]@),
        agent < paths@.len() ==> r@[agent as int] is None,
{
    let mut r: Vec<Option<Path>> = Vec::new();
    let mut i: usize = 0;
    while i < paths.len()
        invariant
            i <= paths@.len(),
            r@.len() == i,
            forall|k: int| 0 <= k < i && k != agent ==> ((#[trigger] r@[k]) matches Some(p) && p@ == paths@[k]@),
            agent < i ==> r@[agent as int] is None,
        decreases paths@.len() - i,
    {
        if i == agent {
            r.push(None);
        } else {
            r.push(Some(copy_cells(&paths[i])));
        }
        i += 1;
    }
    r
}

/// The constraints that resolve `conflict`, one for each of its agents: a vertex
/// constraint on each agent for a vertex conflict; for an edge conflict, each agent may
/// not enter its cell from the other's.
pub open spec fn resolving_constraints(conflict: Conflict) -> Seq<Constraint> {
    match conflict {
        Conflict::Vertex(v) => seq![
            Constraint { agent: v.agent1, time: v.time, location: v.location, prev_location: None },
            Constraint { agent: v.agent2, time: v.time, location: v.location, prev_location: None },
        ],
        Conflict::Edge(e) => seq![
            Constraint { agent: e.agent1, time: e.time, location: e.location1, prev_location: Some(e.location2) },
            Constraint { agent: e.agent2, time: e.time, location: e.location2, prev_location: Some(e.location1) },
        ],
    }
}

/// A constraint that the node already holds, itself or as the vertex constraint that
/// dominates it, adds nothing.
pub open spec fn already_held(cons: Seq<Constraint>, c: Constraint) -> bool {
    cons.contains(c) || cons.contains(Constraint { prev_location: None, ..c })
}

/// A copy of the paths.
pub fn copy_paths(v: &Vec<Path>) -> (r: Vec<Path>)
    ensures
        r@.len() == v@.len(),
        forall|k: int| 0 <= k < v@.len() ==> (#[trigger] r@[k])@ == v@[k]@,
        paths_view(r@) == paths_view(v@),
{
    let mut r: Vec<Path> = Vec::new();
    let mut i: usize = 0;
    while i < v.len()
        invariant
            i <= v@.len(),
            r@.len() == i,
            forall|k: int| 0 <= k < i ==> (#[trigger] r@[k])@ == v@[k]@,
        decreases v@.len() - i,
    {
        r.push(copy_cells(&v[i]));
        i += 1;
    }
    proof {
        assert(paths_view(r@) =~= paths_view(v@));
    }
    r
}

/// The two agents of a conflict.
pub fn conflict_agents(conflict: &Conflict) -> (r: (usize, usize))
    ensures
        r == conflict_agent_pair(*conflict),
{
    match conflict {
        Conflict::Vertex(v) => (v.agent1, v.agent2),
        Conflict::Edge(e) => (e.agent1, e.agent2),
    }
}

pub open spec fn conflict_agent_pair(c: Conflict) -> (usize, usize) {
    match c {
        Conflict::Vertex(v) => (v.agent1, v.agent2),
        Conflict::Edge(e) => (e.agent1, e.agent2),
    }
}

/// The child's path for agent `w` can replace the parent's: it is no longer, valid under
/// the parent's constraints, and leaves strictly fewer conflicts.
pub open spec fn bypasses(scenario: GridModel, agents: Seq<Agent>, parent: ConflictTreeNode, child: ConflictTreeNode, w: usize) -> bool {
    let p = child.paths@[w as int]@;
    &&& w < agents.len()
    &&& p.len() <= parent.paths@[w as int]@.len()
    &&& valid_agent_path(scenario, parent.constraints@, w as int, agents[w as int], p)
    &&& conflict_list(paths_view(parent.paths@).update(w as int, p)).len() < parent.conflicts@.len()
}

/// Conflict bypassing: when some child's path for one of the two agents of `conflict`
/// is no longer than the parent's and, put in place of the parent's, leaves strictly
/// fewer conflicts, the parent with that path is the only child. Otherwise the children
/// stay as they are.
pub fn bypass_conflict(
    parent: &ConflictTreeNode,
    conflict: &Conflict,
    children: Vec<ConflictTreeNode>,
    agents: &Vec<Agent>,
    scenario: &Grid,
) -> (r: Vec<ConflictTreeNode>)
    requires
        parent.wf(scenario@, agents@),
        forall|k: int| 0 <= k < children@.len() ==> (#[trigger] children@[k]).wf(scenario@, agents@),
    ensures
        ({
            &&& r@ == children@
            &&& forall|c: int, w: usize|
                0 <= c < children@.len() && (w == conflict_agent_pair(*conflict).0 || w == conflict_agent_pair(*conflict).1)
                    ==> !#[trigger] bypasses(scenario@, agents@, *parent, children@[c], w)
        }) || ({
            &&& r@.len() == 1
            &&& r@[0].wf(scenario@, agents@)
            &&& r@[0].constraints@ == parent.constraints@
            &&& r@[0].conflicts@.len() < parent.conflicts@.len()
            &&& exists|c: int, w: usize|
                0 <= c < children@.len() && (w == conflict_agent_pair(*conflict).0 || w == conflict_agent_pair(*conflict).1)
                    && #[trigger] bypasses(scenario@, agents@, *parent, children@[c], w) && paths_view(r@[0].paths@)
                    == paths_view(parent.paths@).update(w as int, children@[c].paths@[w as int]@)
        }),
{
    let (a1, a2) = conflict_agents(conflict);
    let n = agents.len();
    let mut k: usize = 0;
    while k < children.len()
        invariant
            parent.wf(scenario@, agents@),
            forall|c: int| 0 <= c < children@.len() ==> (#[trigger] children@[c]).wf(scenario@, agents@),
            n == agents@.len(),
            (a1, a2) == conflict_agent_pair(*conflict),
            forall|c: int, w: usize|
                0 <= c < k && (w == a1 || w == a2) ==> !#[trigger] bypasses(scenario@, agents@, *parent, children@[c], w),
        decreases children@.len() - k,
    {
        let mut which: usize = 0;
        while which < 2
            invariant
                parent.wf(scenario@, agents@),
                forall|c: int| 0 <= c < children@.len() ==> (#[trigger] children@[c]).wf(scenario@, agents@),
                n == agents@.len(),
                k < children@.len(),
                which <= 2,
                (a1, a2) == conflict_agent_pair(*conflict),
                forall|c: int, w: usize|
                    0 <= c < k && (w == a1 || w == a2) ==> !#[trigger] bypasses(scenario@, agents@, *parent, children@[c], w),
                which >= 1 ==> !bypasses(scenario@, agents@, *parent, children@[k as int], a1),
                which >= 2 ==> !bypasses(scenario@, agents@, *parent, children@[k as int], a2),
            decreases 2 - which,
        {
            let agent = if which == 0 {
                a1
            } else {
                a2
            };
            if agent < n {
                let child = &children[k];
                proof {
                    assert(child.wf(scenario@, agents@));
                }
                let path = &child.paths[agent];
                if path.len() <= parent.paths[agent].len() && is_valid_agent_path(
                    scenario,
                    &parent.constraints,
                    agent,
                    &agents[agent],
                    path,
                ) {
                    let mut paths = copy_paths(&parent.paths);
                    let ghost before = paths_view(paths@);
                    paths[agent] = copy_cells(path);
                    proof {
                        assert(paths_view(paths@) =~= before.update(agent as int, path@));
                    }
                    let mut new_parent = ConflictTreeNode {
                        constraints: copy_constraints(&parent.constraints),
                        paths,
                        conflicts: Vec::new(),
                        low_level_generated: 0,
                    };
                    proof {
                        assert forall|i: int| 0 <= i < n implies valid_agent_path(
                            scenario@,
                            new_parent.constraints@,
                            i,
                            agents@[i],
                            #[trigger] new_parent.paths@[i]@,
                        ) by {
                            if i != agent {
                                assert(new_parent.paths@[i]@ == before[i]);
                            }
                        }
                        assert forall|i: int| 0 <= i < n implies 1 <= (#[trigger] new_parent.paths@[i])@.len() <= i32::MAX + 1 by {
                            lemma_valid_path_len(scenario@, new_parent.constraints@, i, agents@[i], new_parent.paths@[i]@);
                        }
                    }
                    new_parent.compute_conflicts();
                    if new_parent.conflicts.len() < parent.conflicts.len() {
                        proof {
                            assert(bypasses(scenario@, agents@, *parent, children@[k as int], agent));
                        }
                        let mut r: Vec<ConflictTreeNode> = Vec::new();
                        r.push(new_parent);
                        return r;
                    }
                }
            }
            which += 1;
        }
        k += 1;
    }
    children
}

pub proof fn lemma_latest_lower_bound(obs: Seq<Entry>, goal: Cell)
    ensures
        latest_unconditional(obs, goal) >= i32::MIN,
    decreases obs.len(),
{
    if obs.len() > 0 {
        lemma_latest_lower_bound(obs.drop_last(), goal);
    }
}

/// More entries in front never make the latest unconditional time at the goal earlier.
pub proof fn lemma_latest_prefix(a: Seq<Entry>, b: Seq<Entry>, goal: Cell)
    ensures
        latest_unconditional(a + b, goal) >= latest_unconditional(b, goal),
    decreases b.len(),
{
    if b.len() == 0 {
        assert(a + b =~= a);
        lemma_latest_lower_bound(a, goal);
    } else {
        assert((a + b).drop_last() =~= a + b.drop_last());
        assert((a + b).last() == b.last());
        lemma_latest_prefix(a, b.drop_last(), goal);
    }
}

/// The latest unconditional time of two lists of entries is the later of theirs.
pub proof fn lemma_latest_concat(a: Seq<Entry>, b: Seq<Entry>, goal: Cell)
    ensures
        latest_unconditional(a + b, goal) == if latest_unconditional(a, goal) > latest_unconditional(b, goal) {
            latest_unconditional(a, goal)
        } else {
            latest_unconditional(b, goal)
        },
    decreases b.len(),
{
    if b.len() == 0 {
        assert(a + b =~= a);
        lemma_latest_lower_bound(a, goal);
    } else {
        assert((a + b).drop_last() =~= a + b.drop_last());
        assert((a + b).last() == b.last());
        lemma_latest_concat(a, b.drop_last(), goal);
    }
}

/// A move is blocked by two lists of entries just when one of them blocks it.
pub proof fn lemma_blocked_concat(a: Seq<Entry>, b: Seq<Entry>, lt: LocationTime, prev: Cell)
    ensures
        crate::grid::blocked(a + b, lt, prev) == (crate::grid::blocked(a, lt, prev) || crate::grid::blocked(b, lt, prev)),
{
    if crate::grid::blocked(a + b, lt, prev) {
        let j = choose|j: int| 0 <= j < (a + b).len() && #[trigger] crate::grid::triggers((a + b)[j], lt, prev);
        if j < a.len() {
            assert(crate::grid::triggers(a[j], lt, prev));
        } else {
            assert(crate::grid::triggers(b[j - a.len()], lt, prev));
        }
    }
    if crate::grid::blocked(a, lt, prev) {
        let j = choose|j: int| 0 <= j < a.len() && #[trigger] crate::grid::triggers(a[j], lt, prev);
        assert((a + b)[j] == a[j]);
    }
    lemma_blocked_prefix(a, b, lt, prev);
}

/// More entries in front never unblock a move.
pub proof fn lemma_blocked_prefix(a: Seq<Entry>, b: Seq<Entry>, lt: LocationTime, prev: Cell)
    ensures
        crate::grid::blocked(b, lt, prev) ==> crate::grid::blocked(a + b, lt, prev),
{
    if crate::grid::blocked(b, lt, prev) {
        let j = choose|j: int| 0 <= j < b.len() && #[trigger] crate::grid::triggers(b[j], lt, prev);
        assert((a + b)[a.len() + j] == b[j]);
        assert(crate::grid::triggers((a + b)[a.len() + j], lt, prev));
    }
}

/// A path that is valid under constraints is valid on the scenario alone.
pub proof fn lemma_valid_without_constraints(
    scenario: GridModel,
    cons: Seq<Constraint>,
    i: int,
    agent: Agent,
    p: Seq<Cell>,
)
    requires
        valid_agent_path(scenario, cons, i, agent, p),
    ensures
        valid_agent_path(scenario, Seq::empty(), i, agent, p),
{
    let e = constraint_entries(cons, i);
    let g1 = agent_grid(scenario, cons, i, agent);
    let g0 = agent_grid(scenario, Seq::empty(), i, agent);
    assert(constraint_entries(Seq::<Constraint>::empty(), i) =~= Seq::<Entry>::empty());
    assert(g0.obstacles =~= scenario.obstacles);
    lemma_latest_prefix(e, scenario.obstacles, agent.goal);
    assert forall|k: int| 1 <= k < p.len() implies #[trigger] g0.valid_step(p[k - 1], p[k], agent_start(agent).time + k) by {
        assert(g1.valid_step(p[k - 1], p[k], agent_start(agent).time + k));
        let lt = LocationTime { location: p[k], time: k as i32 };
        lemma_blocked_prefix(e, scenario.obstacles, lt, p[k - 1]);
        lemma_blocked_prefix(e, scenario.obstacles, LocationTime { location: p[k], time: -1i32 }, p[k - 1]);
    }
}

/// The entry of every constraint on `agent` is among the agent's constraint entries.
pub proof fn lemma_entry_listed(cons: Seq<Constraint>, agent: int, k: int)
    requires
        0 <= k < cons.len(),
        cons[k].agent == agent,
    ensures
        constraint_entries(cons, agent).contains(constraint_entry(cons[k])),
    decreases cons.len(),
{
    let rest = constraint_entries(cons.drop_last(), agent);
    if k == cons.len() - 1 {
        assert(constraint_entries(cons, agent).last() == constraint_entry(cons[k]));
        assert(constraint_entries(cons, agent)[constraint_entries(cons, agent).len() - 1] == constraint_entry(cons[k]));
    } else {
        lemma_entry_listed(cons.drop_last(), agent, k);
        assert(cons.drop_last()[k] == cons[k]);
        let j = choose|j: int| 0 <= j < rest.len() && rest[j] == constraint_entry(cons[k]);
        if cons.last().agent == agent {
            assert(constraint_entries(cons, agent)[j] == rest[j]);
        }
    }
}

/// A valid path keeps every constraint on its agent: it is never on the cell of a vertex
/// constraint at its time, and never makes the move that an edge constraint forbids.
pub proof fn lemma_constraints_kept(scenario: GridModel, cons: Seq<Constraint>, i: int, agent: Agent, p: Seq<Cell>)
    requires
        valid_agent_path(scenario, cons, i, agent, p),
    ensures
        forall|k: int, t: int|
            0 <= k < cons.len() && cons[k].agent == i && 1 <= t < p.len() ==> !(#[trigger] violates(cons[k], p, t)),
{
    assert forall|k: int, t: int| 0 <= k < cons.len() && cons[k].agent == i && 1 <= t < p.len() implies !(#[trigger] violates(
        cons[k],
        p,
        t,
    )) by {
        let g = agent_grid(scenario, cons, i, agent);
        assert(g.valid_step(p[t - 1], p[t], agent_start(agent).time + t));
        if violates(cons[k], p, t) {
            lemma_entry_listed(cons, i, k);
            let e = constraint_entries(cons, i);
            let j = choose|j: int| 0 <= j < e.len() && e[j] == constraint_entry(cons[k]);
            let lt = LocationTime { location: p[t], time: t as i32 };
            assert((e + scenario.obstacles)[j] == e[j]);
            match cons[k].prev_location {
                Some(q) => {
                    assert(constraint_entry(cons[k]).1 == seq![q]);
                    assert(seq![q][0] == q);
                    assert(constraint_entry(cons[k]).1.contains(p[t - 1]));
                },
                None => {},
            }
            assert(crate::grid::triggers((e + scenario.obstacles)[j], lt, p[t - 1]));
        }
    }
}

/// Step `t` of `p` breaks constraint `c`: it ends on the constraint's cell at its time,
/// and, for an edge constraint, comes from the forbidden cell.
pub open spec fn violates(c: Constraint, p: Seq<Cell>, t: int) -> bool {
    &&& p[t] == c.location
    &&& t == c.time
    &&& match c.prev_location {
        Some(q) => p[t - 1] == q,
        None => true,
    }
}

/// `child` is a child of a node with constraints `cons` and conflicts `conflicts`: one
/// more constraint that resolves one of the conflicts, or the same constraints and fewer
/// conflicts.
pub open spec fn resolves(cons: Seq<Constraint>, paths: Seq<Path>, conflict: Conflict, child: ConflictTreeNode) -> bool {
    exists|c: Constraint|
        #[trigger] resolving_constraints(conflict).contains(c) && !already_held(cons, c) && child.constraints@ == cons.push(c)
            && forall|b: int| 0 <= b < paths.len() && b != c.agent ==> (#[trigger] child.paths@[b])@ == paths[b]@
}

/// The children of a node for conflict `conflict`: at most two, each adding one of its
/// resolving constraints and keeping the other agents' paths, and one for every resolving
/// constraint that is new and leaves every agent plannable.
pub open spec fn children_of(
    node: ConflictTreeNode,
    scenario: GridModel,
    agents: Seq<Agent>,
    conflict: Conflict,
    r: Seq<ConflictTreeNode>,
) -> bool {
    &&& r.len() <= 2
    &&& forall|j: int| 0 <= j < r.len() ==> #[trigger] resolves(node.constraints@, node.paths@, conflict, r[j])
    &&& forall|j1: int, j2: int| 0 <= j1 < j2 < r.len() ==> (#[trigger] r[j1]).constraints@ != (#[trigger] r[j2]).constraints@
    &&& forall|c: Constraint|
        #[trigger] resolving_constraints(conflict).contains(c) && !already_held(node.constraints@, c) && (forall|i: int|
            0 <= i < agents.len() ==> !ConflictTreeNode::unplannable(scenario, node.constraints@.push(c), i, agents[i]))
            ==> exists|j: int| 0 <= j < r.len() && (#[trigger] r[j]).constraints@ == node.constraints@.push(c)
}

/// Constraints that give an agent the same grid give it the same shortest paths.
pub proof fn lemma_same_grid_shortest(scenario: GridModel, c1: Seq<Constraint>, c2: Seq<Constraint>, i: int, agent: Agent, p: Seq<Cell>)
    requires
        agent_grid(scenario, c1, i, agent) == agent_grid(scenario, c2, i, agent),
    ensures
        shortest_for(scenario, c1, i, agent, p) == shortest_for(scenario, c2, i, agent, p),
{
    if shortest_for(scenario, c1, i, agent, p) {
        assert forall|q: Seq<Cell>| #[trigger] valid_agent_path(scenario, c2, i, agent, q) implies q.len() >= p.len() by {
            assert(valid_agent_path(scenario, c1, i, agent, q));
        }
    }
    if shortest_for(scenario, c2, i, agent, p) {
        assert forall|q: Seq<Cell>| #[trigger] valid_agent_path(scenario, c1, i, agent, q) implies q.len() >= p.len() by {
            assert(valid_agent_path(scenario, c2, i, agent, q));
        }
    }
}

/// A new constraint on another agent leaves an agent's constraint entries alone.
pub proof fn lemma_entries_other_agent(cons: Seq<Constraint>, c: Constraint, b: int)
    requires
        c.agent != b,
    ensures
        constraint_entries(cons.push(c), b) == constraint_entries(cons, b),
{
    assert(cons.push(c).drop_last() =~= cons);
}

impl ConflictTreeNode {
    /// The child with one more constraint, unless the node holds it already (or the
    /// vertex constraint that dominates it) or it leaves an agent without a path.
    pub fn child(
        &self,
        agents: &Vec<Agent>,
        scenario: &Grid,
        diagonal_subsolver: Option<crate::cbs::DiagonalSubsolverConfig>,
        use_cat: bool,
        c: Constraint,
    ) -> (r: Option<ConflictTreeNode>)
        requires
            self.paths_valid(scenario@, agents@),
        ensures
            r matches Some(n) ==> n.wf(scenario@, agents@) && n.constraints@ == self.constraints@.push(c)
                && !already_held(self.constraints@, c),
            r matches Some(n) ==> forall|b: int|
                0 <= b < agents@.len() && b != c.agent ==> (#[trigger] n.paths@[b])@ == self.paths@[b]@,
            r matches Some(n) ==> diagonal_subsolver is None && c.agent < agents@.len() ==> shortest_for(
                scenario@,
                self.constraints@.push(c),
                c.agent as int,
                agents@[c.agent as int],
                n.paths@[c.agent as int]@,
            ),
            r is None ==> already_held(self.constraints@, c) || exists|i: int|
                0 <= i < agents@.len() && #[trigger] Self::unplannable(scenario@, self.constraints@.push(c), i, agents@[i]),
    {
        let vertex = Constraint { prev_location: None, ..c };
        if contains_constraint(&self.constraints, &c) || contains_constraint(&self.constraints, &vertex) {
            return None;
        }
        let mut cons = copy_constraints(&self.constraints);
        cons.push(c);
        assert(cons@ == self.constraints@.push(c));
        let pre = paths_without(&self.paths, c.agent);
        proof {
            assert forall|b: int| 0 <= b < agents@.len() && b != c.agent implies #[trigger] given_valid(
                scenario@,
                cons@,
                agents@,
                pre@,
                b,
            ) by {
                lemma_entries_other_agent(self.constraints@, c, b);
                assert(given_path(pre@, b) == self.paths@[b]@);
                assert(agent_grid(scenario@, cons@, b, agents@[b]) == agent_grid(scenario@, self.constraints@, b, agents@[b]));
            }
        }
        let r = ConflictTreeNode::new(agents, cons, pre, scenario, diagonal_subsolver, use_cat);
        proof {
            if r is Some {
                let n = r->Some_0;
                assert forall|b: int| 0 <= b < agents@.len() && b != c.agent implies (#[trigger] n.paths@[b])@ == self.paths@[b]@ by {
                    assert(given_valid(scenario@, cons@, agents@, pre@, b));
                    assert(given_path(pre@, b) == self.paths@[b]@);
                }
                if c.agent < agents@.len() {
                    let a = c.agent as int;
                    assert(given_path(pre@, a).len() == 0);
                    assert(!given_valid(scenario@, cons@, agents@, pre@, a));
                }
            }
        }
        r
    }

    /// The children that resolve the conflict `conflicts[k]`, one per agent, each
    /// planned afresh for its agent; with `bypass`, conflict bypassing may put the
    /// parent with a better path in their place.
    pub fn expand(
        &self,
        agents: &Vec<Agent>,
        scenario: &Grid,
        k: usize,
        diagonal_subsolver: Option<crate::cbs::DiagonalSubsolverConfig>,
        use_cat: bool,
        bypass: bool,
    ) -> (r: Vec<ConflictTreeNode>)
        requires
            self.wf(scenario@, agents@),
            k < self.conflicts@.len() || self.conflicts@.len() == 0,
        ensures
            forall|c: int| 0 <= c < r@.len() ==> (#[trigger] r@[c]).wf(scenario@, agents@),
            self.conflicts@.len() == 0 ==> r@.len() == 0,
            diagonal_subsolver is None && all_shortest(scenario@, agents@, *self) ==> forall|j: int|
                0 <= j < r@.len() ==> #[trigger] all_shortest(scenario@, agents@, r@[j]),
            self.conflicts@.len() > 0 && !bypass ==> children_of(*self, scenario@, agents@, self.conflicts@[k as int], r@),
            self.conflicts@.len() > 0 && bypass ==> ({
                &&& children_of(*self, scenario@, agents@, self.conflicts@[k as int], r@)
                &&& forall|c: int, w: usize|
                    0 <= c < r@.len() && (w == conflict_agent_pair(self.conflicts@[k as int]).0 || w == conflict_agent_pair(
                        self.conflicts@[k as int],
                    ).1) ==> !#[trigger] bypasses(scenario@, agents@, *self, r@[c], w)
            }) || ({
                &&& r@.len() == 1
                &&& r@[0].constraints@ == self.constraints@
                &&& r@[0].conflicts@.len() < self.conflicts@.len()
                &&& exists|w: usize, p: Seq<Cell>|
                    (w == conflict_agent_pair(self.conflicts@[k as int]).0 || w == conflict_agent_pair(self.conflicts@[k as int]).1)
                        && p.len() <= self.paths@[w as int]@.len() && #[trigger] paths_view(r@[0].paths@) == paths_view(
                        self.paths@,
                    ).update(w as int, p)
            }),
    {
        if self.conflicts.len() == 0 {
            return Vec::new();
        }
        let conflict = self.conflicts[k];
        let (first, second) = match conflict {
            Conflict::Vertex(v) => (
                Constraint { agent: v.agent1, time: v.time, location: v.location, prev_location: None },
                Constraint { agent: v.agent2, time: v.time, location: v.location, prev_location: None },
            ),
            Conflict::Edge(e) => (
                Constraint { agent: e.agent1, time: e.time, location: e.location1, prev_location: Some(e.location2) },
                Constraint { agent: e.agent2, time: e.time, location: e.location2, prev_location: Some(e.location1) },
            ),
        };
        proof {
            assert(resolving_constraints(self.conflicts@[k as int]) == seq![first, second]);
            assert(resolving_constraints(self.conflicts@[k as int]).contains(first)) by {
                assert(seq![first, second][0] == first);
            }
            assert(resolving_constraints(self.conflicts@[k as int]).contains(second)) by {
                assert(seq![first, second][1] == second);
            }
        }
        let mut children: Vec<ConflictTreeNode> = Vec::new();
        let r1 = self.child(agents, scenario, diagonal_subsolver, use_cat, first);
        let ghost got_first = r1 is Some;
        let ghost r1v = r1;
        match r1 {
            Some(n) => children.push(n),
            None => {},
        }
        let ghost after_first = children@;
        let r2 = self.child(agents, scenario, diagonal_subsolver, use_cat, second);
        let ghost got_second = r2 is Some;
        let ghost r2v = r2;
        match r2 {
            Some(n) => children.push(n),
            None => {},
        }
        proof {
            let res = resolving_constraints(self.conflicts@[k as int]);
            assert forall|c: Constraint|
                #[trigger] res.contains(c) && !already_held(self.constraints@, c) && (forall|i: int|
                    0 <= i < agents@.len() ==> !Self::unplannable(scenario@, self.constraints@.push(c), i, agents@[i]))
                    implies exists|j: int| 0 <= j < children@.len() && (#[trigger] children@[j]).constraints@ == self.constraints@.push(c) by {
                let x = choose|x: int| 0 <= x < res.len() && res[x] == c;
                if x == 0 {
                    assert(c == first);
                    assert(got_first);
                    assert(children@[0] == after_first[0]);
                } else {
                    assert(c == second);
                    assert(got_second);
                    assert(children@[children@.len() - 1].constraints@ == self.constraints@.push(second));
                }
            }
            assert forall|c: int| 0 <= c < children@.len() implies #[trigger] resolves(
                self.constraints@,
                self.paths@,
                self.conflicts@[k as int],
                children@[c],
            ) by {
                let j = k as int;
                if got_first && c == 0 {
                    assert(children@[c] == after_first[0]);
                    assert(resolving_constraints(self.conflicts@[j]).contains(first));
                } else {
                    assert(resolving_constraints(self.conflicts@[j]).contains(second));
                }
            }
            assert(is_conflict(paths_view(self.paths@), self.conflicts@[k as int]));
            assert(first.agent != second.agent);
            if children@.len() == 2 {
                assert(children@[0] == after_first[0]);
                assert(children@[0].constraints@.last() == first);
                assert(children@[1].constraints@.last() == second);
            }
            assert(children_of(*self, scenario@, agents@, self.conflicts@[k as int], children@));
        }
        proof {
            if diagonal_subsolver is None && all_shortest(scenario@, agents@, *self) {
                assert forall|j: int| 0 <= j < children@.len() implies #[trigger] all_shortest(scenario@, agents@, children@[j]) by {
                    let ch = children@[j];
                    let c = if got_first && j == 0 { first } else { second };
                    assert(is_conflict(paths_view(self.paths@), self.conflicts@[k as int]));
                    assert(c.agent < agents@.len());
                    if got_first && j == 0 {
                        assert(ch == after_first[0]);
                        assert(ch == r1v->Some_0);
                    } else {
                        assert(ch == children@[children@.len() - 1]);
                        assert(ch == r2v->Some_0);
                    }
                    assert(ch.constraints@ == self.constraints@.push(c));
                    assert forall|i: int| 0 <= i < agents@.len() implies #[trigger] shortest_for(
                        scenario@,
                        ch.constraints@,
                        i,
                        agents@[i],
                        ch.paths@[i]@,
                    ) by {
                        if i != c.agent {
                            lemma_entries_other_agent(self.constraints@, c, i);
                            assert(agent_grid(scenario@, ch.constraints@, i, agents@[i]) == agent_grid(
                                scenario@,
                                self.constraints@,
                                i,
                                agents@[i],
                            ));
                            assert(shortest_for(scenario@, self.constraints@, i, agents@[i], self.paths@[i]@));
                            assert(ch.paths@[i]@ == self.paths@[i]@);
                            lemma_same_grid_shortest(scenario@, ch.constraints@, self.constraints@, i, agents@[i], self.paths@[i]@);
                        } else {
                            assert(i == c.agent as int);
                            assert(shortest_for(
                                scenario@,
                                self.constraints@.push(c),
                                c.agent as int,
                                agents@[c.agent as int],
                                ch.paths@[c.agent as int]@,
                            ));
                        }
                    }
                }
            }
        }
        if bypass {
            let r = bypass_conflict(self, &conflict, children, agents, scenario);
            proof {
                if diagonal_subsolver is None && all_shortest(scenario@, agents@, *self) && r@ != children@ {
                    let r0 = r@[0];
                    let (cc, w) = choose|cc: int, w: usize|
                        0 <= cc < children@.len() && (w == conflict_agent_pair(conflict).0 || w == conflict_agent_pair(conflict).1)
                            && #[trigger] bypasses(scenario@, agents@, *self, children@[cc], w) && paths_view(r0.paths@)
                            == paths_view(self.paths@).update(w as int, children@[cc].paths@[w as int]@);
                    assert forall|i: int| 0 <= i < agents@.len() implies #[trigger] shortest_for(
                        scenario@,
                        r0.constraints@,
                        i,
                        agents@[i],
                        r0.paths@[i]@,
                    ) by {
                        assert(paths_view(r0.paths@)[i] == r0.paths@[i]@);
                        assert(paths_view(self.paths@)[i] == self.paths@[i]@);
                        assert(shortest_for(scenario@, self.constraints@, i, agents@[i], self.paths@[i]@));
                        if i == w {
                            assert(r0.paths@[i]@ == children@[cc].paths@[w as int]@);
                        }
                    }
                }
            }
            r
        } else {
            children
        }
    }
}

/// The path given for agent `i`, or none.
pub open spec fn given_path(pre: Seq<Option<Path>>, i: int) -> Seq<Cell> {
    if 0 <= i < pre.len() {
        match pre[i] {
            Some(p) => p@,
            None => Seq::empty(),
        }
    } else {
        Seq::empty()
    }
}

/// A path was given for agent `i` and it is valid.
pub open spec fn given_valid(scenario: GridModel, cons: Seq<Constraint>, agents: Seq<Agent>, pre: Seq<Option<Path>>, i: int) -> bool {
    valid_agent_path(scenario, cons, i, agents[i], given_path(pre, i))
}

/// `p` is valid for agent `i` and no valid path is shorter.
pub open spec fn shortest_for(scenario: GridModel, cons: Seq<Constraint>, i: int, agent: Agent, p: Seq<Cell>) -> bool {
    &&& valid_agent_path(scenario, cons, i, agent, p)
    &&& forall|q: Seq<Cell>| #[trigger] valid_agent_path(scenario, cons, i, agent, q) ==> q.len() >= p.len()
}

/// Every path of the node is a shortest valid path for its agent under the node's
/// constraints.
pub open spec fn all_shortest(scenario: GridModel, agents: Seq<Agent>, node: ConflictTreeNode) -> bool {
    forall|i: int| 0 <= i < agents.len() ==> #[trigger] shortest_for(scenario, node.constraints@, i, agents[i], node.paths@[i]@)
}

/// The sum of the lengths of the paths.
pub open spec fn sum_of_costs(paths: Seq<Seq<Cell>>) -> int
    decreases paths.len(),
{
    if paths.len() == 0 {
        0
    } else {
        sum_of_costs(paths.drop_last()) + paths.last().len()
    }
}

} // verus!
