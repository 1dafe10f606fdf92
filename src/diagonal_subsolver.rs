//! The diagonal subsolver: plans monotone agents along diagonal bands before the low level.
use vstd::prelude::*;
use crate::grid::{Cell, Entry, Grid, GridModel, LocationTime, Obstacles, blocked, entries, same_cell, latest_unconditional};
use crate::high_level::{Agent, Constraint, Path, constraint_entries, constraints_to_obstacles, is_adjacent_or_same};
use crate::vertex_cover::{MVCGraph, find_mvc};

verus! {

#[derive(Debug, Clone, Copy, PartialEq, Eq)]
pub enum DiagonalDirection {
    Up,
    Down,
}

#[derive(Debug, Clone, Copy, PartialEq, Eq)]
pub enum DiagonalHalf {
    Left,
    Right,
}

/// A diagonal band: the family given by direction and half, and its offset.
#[derive(Debug, Clone, Copy)]
pub struct Diagonal {
    pub direction: DiagonalDirection,
    pub half: DiagonalHalf,
    pub offset: i32,
}

/// The moves that agents of a family may make: two directions towards their goals, and
/// waiting.
pub open spec fn family_moves(direction: DiagonalDirection, half: DiagonalHalf) -> Seq<(i32, i32)> {
    match (direction, half) {
        (DiagonalDirection::Up, DiagonalHalf::Left) => seq![(-1i32, 0i32), (0i32, -1i32), (0i32, 0i32)],
        (DiagonalDirection::Up, DiagonalHalf::Right) => seq![(1i32, 0i32), (0i32, 1i32), (0i32, 0i32)],
        (DiagonalDirection::Down, DiagonalHalf::Left) => seq![(0i32, 1i32), (-1i32, 0i32), (0i32, 0i32)],
        (DiagonalDirection::Down, DiagonalHalf::Right) => seq![(0i32, -1i32), (1i32, 0i32), (0i32, 0i32)],
    }
}

impl Diagonal {
    /// The moves that agents of this diagonal may make.
    pub fn direction_vecs(&self) -> (r: Vec<(i32, i32)>)
        ensures
            r@ == family_moves(self.direction, self.half),
    {
        let r = match (self.direction, self.half) {
            (DiagonalDirection::Up, DiagonalHalf::Left) => vec![(-1i32, 0i32), (0i32, -1i32), (0i32, 0i32)],
            (DiagonalDirection::Up, DiagonalHalf::Right) => vec![(1i32, 0i32), (0i32, 1i32), (0i32, 0i32)],
            (DiagonalDirection::Down, DiagonalHalf::Left) => vec![(0i32, 1i32), (-1i32, 0i32), (0i32, 0i32)],
            (DiagonalDirection::Down, DiagonalHalf::Right) => vec![(0i32, -1i32), (1i32, 0i32), (0i32, 0i32)],
        };
        proof {
            assert(r@ =~= family_moves(self.direction, self.half));
        }
        r
    }
}

/// The family of an agent by where its goal lies from its start, and its offset: the
/// anti-diagonal `x + y` for the up families, the diagonal `(width - x - 1) + y` for the
/// down ones.
pub open spec fn diagonal_of(agent: Agent, width: int) -> (DiagonalDirection, DiagonalHalf, int) {
    let (sx, sy) = agent.start;
    let (gx, gy) = agent.goal;
    if gx <= sx && gy <= sy {
        (DiagonalDirection::Up, DiagonalHalf::Left, sx + sy)
    } else if gx >= sx && gy >= sy {
        (DiagonalDirection::Up, DiagonalHalf::Right, sx + sy)
    } else if gx <= sx && gy >= sy {
        (DiagonalDirection::Down, DiagonalHalf::Left, (width - sx - 1) + sy)
    } else {
        (DiagonalDirection::Down, DiagonalHalf::Right, (width - sx - 1) + sy)
    }
}

/// Cells within `[-2^28, 2^28)`, so that sums of coordinates fit.
pub open spec fn small(c: Cell) -> bool {
    -0x1000_0000 <= c.0 < 0x1000_0000 && -0x1000_0000 <= c.1 < 0x1000_0000
}

pub open spec fn agent_small(a: Agent) -> bool {
    small(a.start) && small(a.goal)
}

fn diagonal_for(agent: &Agent, width: i32) -> (r: Diagonal)
    requires
        agent_small(*agent),
        -0x1000_0000 <= width < 0x1000_0000,
    ensures
        (r.direction, r.half, r.offset as int) == diagonal_of(*agent, width as int),
{
    let (sx, sy) = agent.start;
    let (gx, gy) = agent.goal;
    if gx <= sx && gy <= sy {
        Diagonal { direction: DiagonalDirection::Up, half: DiagonalHalf::Left, offset: sx + sy }
    } else if gx >= sx && gy >= sy {
        Diagonal { direction: DiagonalDirection::Up, half: DiagonalHalf::Right, offset: sx + sy }
    } else if gx <= sx && gy >= sy {
        Diagonal { direction: DiagonalDirection::Down, half: DiagonalHalf::Left, offset: (width - sx - 1) + sy }
    } else {
        Diagonal { direction: DiagonalDirection::Down, half: DiagonalHalf::Right, offset: (width - sx - 1) + sy }
    }
}

/// The order of agents within a diagonal: by start column, towards the goal side.
pub open spec fn agent_key(direction: DiagonalDirection, half: DiagonalHalf, agent: Agent) -> int {
    match (direction, half) {
        (DiagonalDirection::Up, DiagonalHalf::Left) => agent.start.0 as int,
        (DiagonalDirection::Up, DiagonalHalf::Right) => -agent.start.0,
        (DiagonalDirection::Down, DiagonalHalf::Left) => -agent.start.0,
        (DiagonalDirection::Down, DiagonalHalf::Right) => agent.start.0 as int,
    }
}

/// The order of the diagonals of a family: the most outside first.
pub open spec fn diagonal_key(d: Diagonal) -> int {
    match (d.direction, d.half) {
        (DiagonalDirection::Up, DiagonalHalf::Left) => d.offset as int,
        (DiagonalDirection::Up, DiagonalHalf::Right) => -d.offset,
        (DiagonalDirection::Down, DiagonalHalf::Left) => -d.offset,
        (DiagonalDirection::Down, DiagonalHalf::Right) => d.offset as int,
    }
}

fn key_of(direction: DiagonalDirection, half: DiagonalHalf, agent: &Agent) -> (r: i64)
    ensures
        r == agent_key(direction, half, *agent),
{
    let x = agent.start.0 as i64;
    match (direction, half) {
        (DiagonalDirection::Up, DiagonalHalf::Left) => x,
        (DiagonalDirection::Up, DiagonalHalf::Right) => -x,
        (DiagonalDirection::Down, DiagonalHalf::Left) => -x,
        (DiagonalDirection::Down, DiagonalHalf::Right) => x,
    }
}

pub fn same_family(a: &Diagonal, b: &Diagonal) -> (r: bool)
    ensures
        r == (a.direction == b.direction && a.half == b.half),
{
    let d = match (a.direction, b.direction) {
        (DiagonalDirection::Up, DiagonalDirection::Up) => true,
        (DiagonalDirection::Down, DiagonalDirection::Down) => true,
        _ => false,
    };
    let h = match (a.half, b.half) {
        (DiagonalHalf::Left, DiagonalHalf::Left) => true,
        (DiagonalHalf::Right, DiagonalHalf::Right) => true,
        _ => false,
    };
    d && h
}

/// Inserts agent `a` into a list kept in ascending key order, after those of equal key.
fn insert_sorted(list: &mut Vec<usize>, a: usize, agents: &Vec<Agent>, direction: DiagonalDirection, half: DiagonalHalf)
    requires
        a < agents@.len(),
        forall|k: int| 0 <= k < old(list)@.len() ==> (#[trigger] old(list)@[k]) < agents@.len(),
        forall|i: int, j: int|
            0 <= i < j < old(list)@.len() ==> agent_key(direction, half, agents@[old(list)@[i] as int]) <= agent_key(
                direction,
                half,
                agents@[old(list)@[j] as int],
            ),
    ensures
        old(list)@.no_duplicates() && !old(list)@.contains(a) ==> final(list)@.no_duplicates(),
        forall|x: usize| #[trigger] final(list)@.contains(x) <==> old(list)@.contains(x) || x == a,
        final(list)@.len() == old(list)@.len() + 1,
        forall|k: int| 0 <= k < final(list)@.len() ==> (#[trigger] final(list)@[k]) < agents@.len(),
        forall|i: int, j: int|
            0 <= i < j < final(list)@.len() ==> agent_key(direction, half, agents@[final(list)@[i] as int]) <= agent_key(
                direction,
                half,
                agents@[final(list)@[j] as int],
            ),
{
    let ka = key_of(direction, half, &agents[a]);
    let mut p: usize = 0;
    while p < list.len() && key_of(direction, half, &agents[list[p]]) <= ka
        invariant
            p <= list@.len(),
            forall|k: int| 0 <= k < list@.len() ==> (#[trigger] list@[k]) < agents@.len(),
            forall|k: int| 0 <= k < p ==> agent_key(direction, half, agents@[#[trigger] list@[k] as int]) <= ka,
        decreases list@.len() - p,
    {
        p += 1;
    }
    let ghost before = list@;
    list.insert(p, a);
    proof {
        if before.no_duplicates() && !before.contains(a) {
            assert forall|x: int, y: int| 0 <= x < y < list@.len() implies list@[x] != list@[y] by {
                let bx = if x < p { x } else { x - 1 };
                let by = if y < p { y } else { y - 1 };
                if x == p {
                    assert(list@[y] == before[by]);
                    assert(before.contains(before[by]));
                } else if y == p {
                    assert(list@[x] == before[bx]);
                    assert(before.contains(before[bx]));
                } else {
                    assert(list@[x] == before[bx]);
                    assert(list@[y] == before[by]);
                }
            }
        }
        assert forall|x: usize| #[trigger] list@.contains(x) <==> before.contains(x) || x == a by {
            if list@.contains(x) {
                let k = choose|k: int| 0 <= k < list@.len() && list@[k] == x;
                if k < p {
                    assert(before[k] == x);
                } else if k > p {
                    assert(before[k - 1] == x);
                }
            }
            if before.contains(x) {
                let j = choose|j: int| 0 <= j < before.len() && before[j] == x;
                if j < p {
                    assert(list@[j] == x);
                } else {
                    assert(list@[j + 1] == x);
                }
            }
            if x == a {
                assert(list@[p as int] == a);
            }
        }
        assert forall|i: int, j: int| 0 <= i < j < list@.len() implies agent_key(direction, half, agents@[list@[i] as int])
            <= agent_key(direction, half, agents@[list@[j] as int]) by {
            if j == p {
                assert(list@[i] == before[i]);
            } else if i == p {
                assert(list@[j] == before[j - 1]);
                if p < before.len() {
                    assert(agent_key(direction, half, agents@[before[p as int] as int]) > ka);
                    if j - 1 > p {
                        assert(agent_key(direction, half, agents@[before[p as int] as int]) <= agent_key(direction, half, agents@[before[j - 1] as int]));
                    }
                }
            } else {
                let bi = if i < p { i } else { i - 1 };
                let bj = if j < p { j } else { j - 1 };
                assert(list@[i] == before[bi]);
                assert(list@[j] == before[bj]);
            }
        }
    }
}

/// Agent `a` is in some group.
pub open spec fn grouped(r: Seq<(Diagonal, Vec<usize>)>, a: usize) -> bool {
    exists|d: int| 0 <= d < r.len() && r[d].1@.contains(a)
}

/// The agents grouped by diagonal, in the order in which the diagonals first occur; within
/// a diagonal, in the family's agent order.
pub fn find_diagonal_sets(agents: &Vec<Agent>, scenario: &Grid) -> (r: Vec<(Diagonal, Vec<usize>)>)
    requires
        forall|k: int| 0 <= k < agents@.len() ==> agent_small(#[trigger] agents@[k]),
        -0x1000_0000 <= scenario.width < 0x1000_0000,
    ensures
        forall|d: int, e: int| 0 <= d < e < r@.len() ==> r@[d].0 != r@[e].0,
        forall|d: int, k: int|
            0 <= d < r@.len() && 0 <= k < r@[d].1@.len() ==> (#[trigger] r@[d].1@[k]) < agents@.len() && diagonal_of(
                agents@[r@[d].1@[k] as int],
                scenario.width as int,
            ) == (r@[d].0.direction, r@[d].0.half, r@[d].0.offset as int),
        forall|d: int, i: int, j: int|
            0 <= d < r@.len() && 0 <= i < j < r@[d].1@.len() ==> agent_key(r@[d].0.direction, r@[d].0.half, agents@[r@[d].1@[i] as int])
                <= agent_key(r@[d].0.direction, r@[d].0.half, agents@[r@[d].1@[j] as int]),
        forall|a: usize| a < agents@.len() ==> #[trigger] grouped(r@, a),
        forall|d: int| 0 <= d < r@.len() ==> (#[trigger] r@[d]).1@.no_duplicates(),
        grouping_ok(agents@, scenario.width as int, r@),
{
    let mut r: Vec<(Diagonal, Vec<usize>)> = Vec::new();
    let mut i: usize = 0;
    while i < agents.len()
        invariant
            i <= agents@.len(),
            forall|k: int| 0 <= k < agents@.len() ==> agent_small(#[trigger] agents@[k]),
            -0x1000_0000 <= scenario.width < 0x1000_0000,
            forall|d: int, e: int| 0 <= d < e < r@.len() ==> r@[d].0 != r@[e].0,
            forall|d: int, k: int|
                0 <= d < r@.len() && 0 <= k < r@[d].1@.len() ==> (#[trigger] r@[d].1@[k]) < agents@.len() && diagonal_of(
                    agents@[r@[d].1@[k] as int],
                    scenario.width as int,
                ) == (r@[d].0.direction, r@[d].0.half, r@[d].0.offset as int),
            forall|d: int, a: int, b: int|
                0 <= d < r@.len() && 0 <= a < b < r@[d].1@.len() ==> agent_key(r@[d].0.direction, r@[d].0.half, agents@[r@[d].1@[a] as int])
                    <= agent_key(r@[d].0.direction, r@[d].0.half, agents@[r@[d].1@[b] as int]),
            forall|a: usize| a < i ==> #[trigger] grouped(r@, a),
            forall|d: int| 0 <= d < r@.len() ==> (#[trigger] r@[d]).1@.no_duplicates(),
            forall|d: int, k: int| 0 <= d < r@.len() && 0 <= k < r@[d].1@.len() ==> (#[trigger] r@[d].1@[k]) < i,
        decreases agents@.len() - i,
    {
        let diag = diagonal_for(&agents[i], scenario.width);
        let mut d: usize = 0;
        while d < r.len() && !(same_family(&r[d].0, &diag) && r[d].0.offset == diag.offset)
            invariant
                d <= r@.len(),
                forall|e: int| 0 <= e < d ==> r@[e].0 != diag,
            decreases r@.len() - d,
        {
            d += 1;
        }
        let ghost old_r = r@;
        if d == r.len() {
            let mut list: Vec<usize> = Vec::new();
            list.push(i);
            r.push((diag, list));
            proof {
                assert forall|a: usize| a < i + 1 implies #[trigger] grouped(r@, a) by {
                    if a < i {
                        assert(grouped(old_r, a));
                        let e = choose|e: int| 0 <= e < old_r.len() && old_r[e].1@.contains(a);
                        assert(r@[e] == old_r[e]);
                    } else {
                        assert(r@[d as int].1@[0] == i);
                        assert(r@[d as int].1@.contains(a));
                    }
                }
            }
        } else {
            let (dg, mut list) = r.remove(d);
            let ghost old_list = list@;
            proof {
                assert(old_list == old_r[d as int].1@);
                if old_list.contains(i) {
                    let k = choose|k: int| 0 <= k < old_list.len() && old_list[k] == i;
                    assert(old_r[d as int].1@[k] < i);
                }
            }
            insert_sorted(&mut list, i, agents, dg.direction, dg.half);
            r.insert(d, (dg, list));
            proof {
                assert(dg == diag);
                assert forall|e: int, k: int| 0 <= e < r@.len() && 0 <= k < r@[e].1@.len() implies (#[trigger] r@[e].1@[k]) < i + 1 by {
                    if e == d {
                        let x = r@[e].1@[k];
                        assert(list@.contains(x));
                        if x != i {
                            assert(old_list.contains(x));
                            let j = choose|j: int| 0 <= j < old_list.len() && old_list[j] == x;
                            assert(old_r[d as int].1@[j] < i);
                        }
                    } else {
                        assert(r@[e] == old_r[e]);
                    }
                }
                assert forall|e: int| 0 <= e < r@.len() implies (#[trigger] r@[e]).1@.no_duplicates() by {
                    if e != d {
                        assert(r@[e] == old_r[e]);
                    }
                }
                assert forall|e: int| 0 <= e < r@.len() && e != d implies r@[e] == old_r[e] by {}
                assert(list@.contains(i));
                assert forall|k: int| 0 <= k < list@.len() implies diagonal_of(agents@[#[trigger] list@[k] as int], scenario.width as int)
                    == (diag.direction, diag.half, diag.offset as int) by {
                    let x = list@[k];
                    assert(list@.contains(x));
                    if x != i {
                        assert(old_list.contains(x));
                        let j = choose|j: int| 0 <= j < old_list.len() && old_list[j] == x;
                        assert(old_r[d as int].1@[j] == x);
                    }
                }
                assert forall|a: usize| a < i + 1 implies #[trigger] grouped(r@, a) by {
                    if a < i {
                        assert(grouped(old_r, a));
                        let e = choose|e: int| 0 <= e < old_r.len() && old_r[e].1@.contains(a);
                        if e == d {
                            assert(old_list.contains(a));
                            assert(r@[e].1@.contains(a));
                        } else {
                            assert(r@[e] == old_r[e]);
                        }
                    } else {
                        assert(r@[d as int].1@.contains(i));
                    }
                }
            }
        }
        i += 1;
    }
    r
}


/// Two agents of one diagonal must cross: their starts and their goals are ordered
/// oppositely in both coordinates.
pub open spec fn spec_are_dependent(a: Agent, b: Agent) -> bool {
    (a.start.0 - b.start.0) * (a.goal.0 - b.goal.0) < 0 && (a.start.1 - b.start.1) * (a.goal.1 - b.goal.1) < 0
}

pub fn are_dependent(agent: &Agent, other_agent: &Agent) -> (r: bool)
    requires
        agent_small(*agent),
        agent_small(*other_agent),
    ensures
        r == spec_are_dependent(*agent, *other_agent),
{
    let dx = agent.start.0 as i64 - other_agent.start.0 as i64;
    let gx = agent.goal.0 as i64 - other_agent.goal.0 as i64;
    let dy = agent.start.1 as i64 - other_agent.start.1 as i64;
    let gy = agent.goal.1 as i64 - other_agent.goal.1 as i64;
    assert(-0x2000_0000 <= dx <= 0x2000_0000 && -0x2000_0000 <= gx <= 0x2000_0000);
    assert(-0x2000_0000 <= dy <= 0x2000_0000 && -0x2000_0000 <= gy <= 0x2000_0000);
    assert(-0x4000_0000_0000_0000 <= dx * gx <= 0x4000_0000_0000_0000) by (nonlinear_arith)
        requires
            -0x2000_0000 <= dx <= 0x2000_0000,
            -0x2000_0000 <= gx <= 0x2000_0000,
    ;
    assert(-0x4000_0000_0000_0000 <= dy * gy <= 0x4000_0000_0000_0000) by (nonlinear_arith)
        requires
            -0x2000_0000 <= dy <= 0x2000_0000,
            -0x2000_0000 <= gy <= 0x2000_0000,
    ;
    dx * gx < 0 && dy * gy < 0
}

/// The dependency graph among the listed agents, by their positions in the list.
pub fn build_dependency_graph(list: &Vec<usize>, agents: &Vec<Agent>) -> (r: MVCGraph)
    requires
        forall|k: int| 0 <= k < list@.len() ==> (#[trigger] list@[k]) < agents@.len(),
        forall|k: int| 0 <= k < agents@.len() ==> agent_small(#[trigger] agents@[k]),
    ensures
        forall|e: (usize, usize)| #[trigger] r.edges@.contains(e) <==> e.0 < list@.len() && e.1 < list@.len() && spec_are_dependent(
            agents@[list@[e.0 as int] as int],
            agents@[list@[e.1 as int] as int],
        ),
{
    let mut g = MVCGraph::new();
    let n = list.len();
    let mut i: usize = 0;
    while i < n
        invariant
            i <= n,
            n == list@.len(),
            forall|k: int| 0 <= k < list@.len() ==> (#[trigger] list@[k]) < agents@.len(),
            forall|k: int| 0 <= k < agents@.len() ==> agent_small(#[trigger] agents@[k]),
            forall|e: (usize, usize)| #[trigger] g.edges@.contains(e) <==> e.0 < i && e.1 < n && spec_are_dependent(
                agents@[list@[e.0 as int] as int],
                agents@[list@[e.1 as int] as int],
            ),
        decreases n - i,
    {
        let mut j: usize = 0;
        while j < n
            invariant
                i < n,
                j <= n,
                n == list@.len(),
                forall|k: int| 0 <= k < list@.len() ==> (#[trigger] list@[k]) < agents@.len(),
                forall|k: int| 0 <= k < agents@.len() ==> agent_small(#[trigger] agents@[k]),
                forall|e: (usize, usize)| #[trigger] g.edges@.contains(e) <==> e.1 < n && (e.0 < i || (e.0 == i && e.1 < j))
                    && spec_are_dependent(agents@[list@[e.0 as int] as int], agents@[list@[e.1 as int] as int]),
            decreases n - j,
        {
            let ghost before = g.edges@;
            if are_dependent(&agents[list[i]], &agents[list[j]]) {
                g.add_edge(i, j);
            }
            proof {
                assert forall|e: (usize, usize)| #[trigger] g.edges@.contains(e) <==> e.1 < n && (e.0 < i || (e.0 == i && e.1 < j + 1))
                    && spec_are_dependent(agents@[list@[e.0 as int] as int], agents@[list@[e.1 as int] as int]) by {
                    if before.contains(e) {
                        let x = choose|x: int| 0 <= x < before.len() && before[x] == e;
                        assert(g.edges@[x] == e);
                    }
                    if g.edges@.contains(e) && !before.contains(e) {
                        let x = choose|x: int| 0 <= x < g.edges@.len() && g.edges@[x] == e;
                        assert(x == before.len());
                    }
                    if e == (i, j) && g.edges@.len() > before.len() {
                        assert(g.edges@[before.len() as int] == e);
                    }
                }
            }
            j += 1;
        }
        i += 1;
    }
    g
}

/// `loc` lies in the box spanned by the agent's start and goal.
pub open spec fn in_box(loc: Cell, agent: Agent) -> bool {
    let (sx, sy) = agent.start;
    let (gx, gy) = agent.goal;
    (if sx < gx { sx <= loc.0 <= gx } else { gx <= loc.0 <= sx }) && (if sy < gy { sy <= loc.1 <= gy } else { gy <= loc.1 <= sy })
}

pub fn is_in_start_goal_box(loc_time: &LocationTime, agent: &Agent) -> (r: bool)
    ensures
        r == in_box(loc_time.location, *agent),
{
    let (x, y) = loc_time.location;
    let (sx, sy) = agent.start;
    let (gx, gy) = agent.goal;
    let in_x = if sx < gx {
        sx <= x && x <= gx
    } else {
        gx <= x && x <= sx
    };
    let in_y = if sy < gy {
        sy <= y && y <= gy
    } else {
        gy <= y && y <= sy
    };
    in_x && in_y
}

/// Whether an entry of `additional_obstacles` forbids entering `loc_time` from `prev`.
pub fn is_in_additional_obstacles(loc_time: &LocationTime, prev: &LocationTime, additional_obstacles: &Obstacles) -> (r: bool)
    ensures
        r == blocked(entries(additional_obstacles@), *loc_time, prev.location),
{
    crate::grid::is_blocked(additional_obstacles, loc_time, &prev.location)
}

/// The number of waits in a path: steps that stay on their cell.
pub open spec fn waits(p: Seq<Cell>) -> int
    decreases p.len(),
{
    if p.len() <= 1 {
        0
    } else {
        waits(p.drop_last()) + if p.last() == p[p.len() - 2] {
            1int
        } else {
            0
        }
    }
}

/// Whether the path waits more than `max_waits_allowed` times.
pub fn max_waits_exceeded(path: &Path, max_waits_allowed: i32) -> (r: bool)
    ensures
        r == (waits(path@) > max_waits_allowed),
{
    if path.len() == 0 {
        return 0 > max_waits_allowed;
    }
    let mut num_waits: u64 = 0;
    let mut i: usize = 1;
    proof {
        assert(waits(path@.take(1)) == 0);
    }
    while i < path.len()
        invariant
            1 <= i <= path@.len(),
            num_waits == waits(path@.take(i as int)),
            num_waits <= i,
        decreases path@.len() - i,
    {
        proof {
            assert(path@.take(i + 1).drop_last() =~= path@.take(i as int));
        }
        if same_cell(path[i], path[i - 1]) {
            num_waits += 1;
        }
        i += 1;
    }
    proof {
        assert(path@.take(i as int) =~= path@);
    }
    num_waits as i128 > max_waits_allowed as i128
}


/// The step from `prev` to `next`, arriving at time `t`, is legal on the auxiliary grid,
/// stays in the agent's box and meets none of the additional obstacles.
pub open spec fn diag_step(aux: GridModel, extra: Seq<Entry>, agent: Agent, prev: Cell, next: Cell, t: int) -> bool {
    &&& aux.valid_step(prev, next, t)
    &&& in_box(next, agent)
    &&& !blocked(extra, LocationTime { location: next, time: t as i32 }, prev)
    &&& !blocked(extra, LocationTime { location: next, time: -1i32 }, prev)
}

/// Every step of `p`, which stands on `p[0]` at time `t0`, is a legal diagonal step.
pub open spec fn diag_walk(aux: GridModel, extra: Seq<Entry>, agent: Agent, p: Seq<Cell>, t0: int) -> bool {
    forall|i: int| 1 <= i < p.len() ==> #[trigger] diag_step(aux, extra, agent, p[i - 1], p[i], t0 + i)
}

/// The cell that move `m` leads to from `c`.
pub open spec fn next_by(c: Cell, m: (i32, i32)) -> Cell {
    ((c.0 + m.0) as i32, (c.1 + m.1) as i32)
}

/// Every step of `p` is one of the moves.
pub open spec fn moves_walk(moves: Seq<(i32, i32)>, p: Seq<Cell>) -> bool {
    forall|i: int| 1 <= i < p.len() ==> #[trigger] one_move(moves, p[i - 1], p[i])
}

/// One of the moves leads from `a` to `b`.
pub open spec fn one_move(moves: Seq<(i32, i32)>, a: Cell, b: Cell) -> bool {
    exists|m: int| 0 <= m < moves.len() && #[trigger] next_by(a, moves[m]) == b
}

/// Some walk leads from `c` at time `t` to the agent's goal, arriving after `clear` and
/// by `deadline`, by the given moves, with legal diagonal steps and at most `w` waits.
pub open spec fn alive(
    aux: GridModel,
    extra: Seq<Entry>,
    agent: Agent,
    moves: Seq<(i32, i32)>,
    deadline: int,
    clear: int,
    c: Cell,
    t: int,
    w: int,
) -> bool
    decreases deadline - t,
{
    if c == agent.goal && t > clear {
        true
    } else if t >= deadline {
        false
    } else {
        exists|m: int|
            0 <= m < moves.len() && #[trigger] diag_step(aux, extra, agent, c, next_by(c, moves[m]), t + 1) && (moves[m] != (
                0i32,
                0i32,
            ) || w > 0) && alive(
                aux,
                extra,
                agent,
                moves,
                deadline,
                clear,
                next_by(c, moves[m]),
                t + 1,
                if moves[m] == (0i32, 0i32) {
                    w - 1
                } else {
                    w
                },
            )
    }
}

/// Prepending a cell adds a wait when the next cell is the same.
proof fn lemma_waits_prepend(c: Cell, s: Seq<Cell>)
    requires
        s.len() >= 1,
    ensures
        waits(seq![c] + s) == waits(s) + if s[0] == c {
            1int
        } else {
            0
        },
    decreases s.len(),
{
    let p = seq![c] + s;
    if s.len() == 1 {
        assert(p.drop_last() =~= seq![c]);
        assert(waits(seq![c]) == 0);
        assert(waits(s) == 0);
        assert(p.last() == s[0]);
        assert(p[p.len() - 2] == c);
    } else {
        lemma_waits_prepend(c, s.drop_last());
        assert(s.drop_last()[0] == s[0]);
        assert(p.drop_last() =~= seq![c] + s.drop_last());
        assert(p.last() == s.last());
        assert(p[p.len() - 2] == s[s.len() - 2]);
    }
}

/// Depth-first search for a path from `cur`, at time `t`, to the agent's goal by the
/// given moves, arriving after `clear` and by `deadline`, waiting at most `waits_left`
/// times. `visited` records the states, with their wait budgets, from which no such
/// path exists; the search adds those it rules out.
pub fn dfs(
    agent: &Agent,
    moves: &Vec<(i32, i32)>,
    aux: &Grid,
    extra: &Obstacles,
    cur: Cell,
    t: i32,
    deadline: i32,
    clear: i32,
    waits_left: i32,
    visited: &mut Vec<(LocationTime, i32)>,
) -> (r: Option<Path>)
    requires
        0 <= t <= deadline,
        0 <= waits_left,
        agent_small(*agent),
        in_box(cur, *agent),
        forall|k: int| 0 <= k < moves@.len() ==> -1 <= (#[trigger] moves@[k]).0 <= 1 && -1 <= moves@[k].1 <= 1,
        forall|k: int|
            0 <= k < old(visited)@.len() && (#[trigger] old(visited)@[k]).0.time > t ==> !alive(
                aux@,
                entries(extra@),
                *agent,
                moves@,
                deadline as int,
                clear as int,
                old(visited)@[k].0.location,
                old(visited)@[k].0.time as int,
                old(visited)@[k].1 as int,
            ),
    ensures
        final(visited)@.len() >= old(visited)@.len(),
        forall|k: int| 0 <= k < old(visited)@.len() ==> #[trigger] final(visited)@[k] == old(visited)@[k],
        forall|k: int| old(visited)@.len() <= k < final(visited)@.len() ==> (#[trigger] final(visited)@[k]).0.time > t,
        forall|k: int|
            0 <= k < final(visited)@.len() && (#[trigger] final(visited)@[k]).0.time > t ==> !alive(
                aux@,
                entries(extra@),
                *agent,
                moves@,
                deadline as int,
                clear as int,
                final(visited)@[k].0.location,
                final(visited)@[k].0.time as int,
                final(visited)@[k].1 as int,
            ),
        r is None ==> !alive(aux@, entries(extra@), *agent, moves@, deadline as int, clear as int, cur, t as int, waits_left as int),
        r matches Some(p) ==> {
            &&& p@.len() >= 1
            &&& p@[0] == cur
            &&& p@.last() == agent.goal
            &&& t + p@.len() - 1 > clear
            &&& t + p@.len() - 1 <= deadline
            &&& diag_walk(aux@, entries(extra@), *agent, p@, t as int)
            &&& moves_walk(moves@, p@)
            &&& waits(p@) <= waits_left
        },
    decreases deadline - t,
{
    let ghost ex = entries(extra@);
    if same_cell(cur, agent.goal) && t > clear {
        let p = vec![cur];
        proof {
            assert(waits(p@) == 0);
        }
        return Some(p);
    }
    if t >= deadline {
        return None;
    }
    let mut k: usize = 0;
    while k < moves.len()
        invariant
            0 <= t < deadline,
            0 <= waits_left,
            !(cur == agent.goal && t > clear),
            agent_small(*agent),
            in_box(cur, *agent),
            ex == entries(extra@),
            visited@.len() >= old(visited)@.len(),
            forall|j: int| 0 <= j < old(visited)@.len() ==> #[trigger] visited@[j] == old(visited)@[j],
            forall|j: int| old(visited)@.len() <= j < visited@.len() ==> (#[trigger] visited@[j]).0.time > t,
            forall|j: int| 0 <= j < moves@.len() ==> -1 <= (#[trigger] moves@[j]).0 <= 1 && -1 <= moves@[j].1 <= 1,
            forall|j: int|
                0 <= j < visited@.len() && (#[trigger] visited@[j]).0.time > t ==> !alive(
                    aux@,
                    ex,
                    *agent,
                    moves@,
                    deadline as int,
                    clear as int,
                    visited@[j].0.location,
                    visited@[j].0.time as int,
                    visited@[j].1 as int,
                ),
            forall|j: int|
                0 <= j < k ==> !(#[trigger] diag_step(aux@, ex, *agent, cur, next_by(cur, moves@[j]), t + 1) && (moves@[j] != (
                    0i32,
                    0i32,
                ) || waits_left > 0) && alive(
                    aux@,
                    ex,
                    *agent,
                    moves@,
                    deadline as int,
                    clear as int,
                    next_by(cur, moves@[j]),
                    t + 1,
                    if moves@[j] == (0i32, 0i32) {
                        waits_left - 1
                    } else {
                        waits_left as int
                    },
                )),
        decreases moves@.len() - k,
    {
        let m = moves[k];
        let next: Cell = (cur.0 + m.0, cur.1 + m.1);
        let is_wait = m.0 == 0 && m.1 == 0;
        let left = if is_wait {
            waits_left - 1
        } else {
            waits_left
        };
        assert(next == next_by(cur, moves@[k as int]));
        assert(is_wait == (moves@[k as int] == (0i32, 0i32)));
        if !is_wait || waits_left > 0 {
            let lt = LocationTime { location: next, time: t + 1 };
            let here = LocationTime { location: cur, time: t };
            if is_in_start_goal_box(&lt, agent) && is_adjacent_or_same(cur, next) && aux.is_valid_location_time(&lt, &cur)
                && !is_in_additional_obstacles(&lt, &here, extra) && !is_in_additional_obstacles(
                &LocationTime { location: next, time: -1 },
                &here,
                extra,
            ) {
                proof {
                    assert(diag_step(aux@, ex, *agent, cur, next, t + 1));
                }
                if !ruled_out(visited, lt, left) {
                    let ghost pre = visited@;
                    match dfs(agent, moves, aux, extra, next, t + 1, deadline, clear, left, visited) {
                        Some(mut sub) => {
                            let ghost s = sub@;
                            let mut p = vec![cur];
                            p.append(&mut sub);
                            proof {
                                assert(p@ =~= seq![cur] + s);
                                lemma_waits_prepend(cur, s);
                                assert forall|i: int| 1 <= i < p@.len() implies #[trigger] diag_step(
                                    aux@,
                                    ex,
                                    *agent,
                                    p@[i - 1],
                                    p@[i],
                                    t + i,
                                ) by {
                                    if i >= 2 {
                                        let j = i - 1;
                                        assert(diag_walk(aux@, ex, *agent, s, (t + 1) as int));
                                        assert(diag_step(aux@, ex, *agent, s[j - 1], s[j], (t + 1) as int + j));
                                        assert(p@[i - 1] == s[j - 1]);
                                        assert(p@[i] == s[j]);
                                    }
                                }
                                assert forall|i: int| 1 <= i < p@.len() implies #[trigger] one_move(moves@, p@[i - 1], p@[i]) by {
                                    if i == 1 {
                                        assert(next_by(p@[0], moves@[k as int]) == p@[1]);
                                    } else {
                                        let j = i - 1;
                                        assert(p@[i - 1] == s[j - 1]);
                                        assert(p@[i] == s[j]);
                                        assert(one_move(moves@, s[j - 1], s[j]));
                                    }
                                }
                                assert(p@.last() == s.last());
                                assert forall|j: int|
                                    0 <= j < visited@.len() && (#[trigger] visited@[j]).0.time > t implies !alive(
                                        aux@,
                                        ex,
                                        *agent,
                                        moves@,
                                        deadline as int,
                                        clear as int,
                                        visited@[j].0.location,
                                        visited@[j].0.time as int,
                                        visited@[j].1 as int,
                                    ) by {
                                    if j < pre.len() {
                                        assert(visited@[j] == pre[j]);
                                    }
                                }
                                assert forall|j: int| 0 <= j < old(visited)@.len() implies #[trigger] visited@[j] == old(visited)@[j] by {
                                    assert(visited@[j] == pre[j]);
                                }
                                assert forall|j: int| old(visited)@.len() <= j < visited@.len() implies (#[trigger] visited@[j]).0.time > t by {
                                    if j < pre.len() {
                                        assert(visited@[j] == pre[j]);
                                    }
                                }
                            }
                            return Some(p);
                        },
                        None => {
                            let ghost before = visited@;
                            visited.push((lt, left));
                            proof {
                                assert forall|j: int|
                                    0 <= j < visited@.len() && (#[trigger] visited@[j]).0.time > t implies !alive(
                                        aux@,
                                        ex,
                                        *agent,
                                        moves@,
                                        deadline as int,
                                        clear as int,
                                        visited@[j].0.location,
                                        visited@[j].0.time as int,
                                        visited@[j].1 as int,
                                    ) by {
                                    if j < before.len() {
                                        assert(visited@[j] == before[j]);
                                        if j < pre.len() {
                                            assert(before[j] == pre[j]);
                                        }
                                    } else {
                                        assert(visited@[j] == (lt, left));
                                    }
                                }
                                assert forall|j: int| 0 <= j < old(visited)@.len() implies #[trigger] visited@[j] == old(visited)@[j] by {
                                    assert(visited@[j] == before[j]);
                                    assert(before[j] == pre[j]);
                                }
                                assert forall|j: int| old(visited)@.len() <= j < visited@.len() implies (#[trigger] visited@[j]).0.time > t by {
                                    if j < before.len() {
                                        assert(visited@[j] == before[j]);
                                        if j < pre.len() {
                                            assert(before[j] == pre[j]);
                                        }
                                    }
                                }
                            }
                        },
                    }
                }
            }
        }
        k += 1;
    }
    None
}

/// Whether `visited` holds the state `lt` with the wait budget `w`.
fn ruled_out(visited: &Vec<(LocationTime, i32)>, lt: LocationTime, w: i32) -> (r: bool)
    ensures
        r ==> exists|j: int| 0 <= j < visited@.len() && #[trigger] visited@[j] == (lt, w),
{
    let mut j: usize = 0;
    while j < visited.len()
        invariant
            j <= visited@.len(),
        decreases visited@.len() - j,
    {
        let e = visited[j];
        if e.0 == lt && e.1 == w {
            proof {
                assert(visited@[j as int] == (lt, w));
            }
            return true;
        }
        j += 1;
    }
    false
}

/// How long a diagonal route may take: the Manhattan distance from start to goal plus
/// the allowed waits, and no more than the largest time.
pub open spec fn route_deadline(agent: Agent, slackness: i32) -> int {
    let dx = if agent.start.0 < agent.goal.0 { agent.goal.0 - agent.start.0 } else { agent.start.0 - agent.goal.0 };
    let dy = if agent.start.1 < agent.goal.1 { agent.goal.1 - agent.start.1 } else { agent.start.1 - agent.goal.1 };
    let w = if slackness > 0 { slackness as int } else { 0 };
    if dx + dy + w > i32::MAX { i32::MAX as int } else { dx + dy + w }
}

pub open spec fn max_int(a: int, b: int) -> int {
    if a > b { a } else { b }
}

/// A route of the diagonal subsolver: the moves of one family, inside the agent's box,
/// with at most `slackness` waits.
pub open spec fn diagonal_route(agent: Agent, slackness: i32, p: Seq<Cell>) -> bool {
    &&& exists|d: DiagonalDirection, h: DiagonalHalf| #[trigger] moves_walk(family_moves(d, h), p)
    &&& forall|i: int| 0 <= i < p.len() ==> in_box(#[trigger] p[i], agent)
    &&& waits(p) <= if slackness > 0 {
        slackness as int
    } else {
        0
    }
}

/// A diagonal walk on a grid that has the scenario's entries and more, avoiding entries
/// that begin with the agent's constraints, is a valid path for the agent.
pub proof fn lemma_diag_walk_valid(
    scenario: GridModel,
    cons: Seq<Constraint>,
    i: int,
    agent: Agent,
    aux: GridModel,
    aux_tail: Seq<Entry>,
    extra_tail: Seq<Entry>,
    p: Seq<Cell>,
)
    requires
        aux.width == scenario.width,
        aux.height == scenario.height,
        aux.obstacles == scenario.obstacles + aux_tail,
        diag_walk(aux, crate::high_level::constraint_entries(cons, i) + extra_tail, agent, p, 0),
        p.len() >= 1,
        p[0] == agent.start,
        p.last() == agent.goal,
        p.len() - 1 > latest_unconditional(crate::high_level::constraint_entries(cons, i) + extra_tail, agent.goal),
        p.len() - 1 > latest_unconditional(aux.obstacles, agent.goal),
    ensures
        crate::high_level::valid_agent_path(scenario, cons, i, agent, p),
{
    let ce = crate::high_level::constraint_entries(cons, i);
    let g = crate::high_level::agent_grid(scenario, cons, i, agent);
    crate::high_level::lemma_latest_concat(ce, extra_tail, agent.goal);
    crate::high_level::lemma_latest_concat(scenario.obstacles, aux_tail, agent.goal);
    crate::high_level::lemma_latest_concat(ce, scenario.obstacles, agent.goal);
    assert forall|k: int| 1 <= k < p.len() implies #[trigger] g.valid_step(p[k - 1], p[k], 0 + k) by {
        assert(diag_step(aux, ce + extra_tail, agent, p[k - 1], p[k], 0 + k));
        let lt = LocationTime { location: p[k], time: k as i32 };
        let lp = LocationTime { location: p[k], time: -1i32 };
        crate::high_level::lemma_blocked_concat(ce, extra_tail, lt, p[k - 1]);
        crate::high_level::lemma_blocked_concat(ce, extra_tail, lp, p[k - 1]);
        crate::high_level::lemma_blocked_concat(scenario.obstacles, aux_tail, lt, p[k - 1]);
        crate::high_level::lemma_blocked_concat(scenario.obstacles, aux_tail, lp, p[k - 1]);
        crate::high_level::lemma_blocked_concat(ce, scenario.obstacles, lt, p[k - 1]);
        crate::high_level::lemma_blocked_concat(ce, scenario.obstacles, lp, p[k - 1]);
    }
}

/// A path for the agent from its start along the diagonal's moves, inside the box of
/// its start and goal, with at most `slackness` waits, within the route deadline, ending
/// after the last unconditional obstacle on its goal (additional or on the auxiliary
/// grid), and whether one was found. It fails just when there is no such path.
pub fn plan_agent_path(
    agent: &Agent,
    diagonal: &Diagonal,
    aux_grid: &Grid,
    additional_obstacles: &Obstacles,
    slackness: i32,
) -> (r: (Path, bool))
    requires
        agent_small(*agent),
    ensures
        r.1 ==> {
            &&& r.0@.len() >= 1
            &&& r.0@[0] == agent.start
            &&& r.0@.last() == agent.goal
            &&& diag_walk(aux_grid@, entries(additional_obstacles@), *agent, r.0@, 0)
            &&& moves_walk(family_moves(diagonal.direction, diagonal.half), r.0@)
            &&& waits(r.0@) <= (if slackness > 0 { slackness as int } else { 0 })
            &&& r.0@.len() - 1 <= route_deadline(*agent, slackness)
            &&& r.0@.len() - 1 > latest_unconditional(entries(additional_obstacles@), agent.goal)
            &&& r.0@.len() - 1 > latest_unconditional(aux_grid@.obstacles, agent.goal)
        },
        !r.1 ==> !alive(
            aux_grid@,
            entries(additional_obstacles@),
            *agent,
            family_moves(diagonal.direction, diagonal.half),
            route_deadline(*agent, slackness),
            max_int(
                latest_unconditional(entries(additional_obstacles@), agent.goal),
                latest_unconditional(aux_grid@.obstacles, agent.goal),
            ),
            agent.start,
            0,
            if slackness > 0 { slackness as int } else { 0 },
        ),
{
    let lgot = crate::grid::latest_unconditional_of(additional_obstacles, agent.goal);
    let aux_lgot = crate::grid::latest_unconditional_of(&aux_grid.obstacles, agent.goal);
    let clear = if lgot > aux_lgot {
        lgot
    } else {
        aux_lgot
    };
    let moves = diagonal.direction_vecs();
    let dx = agent.start.0 as i64 - agent.goal.0 as i64;
    let dy = agent.start.1 as i64 - agent.goal.1 as i64;
    let dist: i64 = (if dx < 0 { -dx } else { dx }) + (if dy < 0 { -dy } else { dy });
    let waits: i64 = if slackness > 0 {
        slackness as i64
    } else {
        0
    };
    let deadline: i32 = if dist + waits > i32::MAX as i64 {
        i32::MAX
    } else {
        (dist + waits) as i32
    };
    assert(deadline == route_deadline(*agent, slackness));
    proof {
        assert(in_box(agent.start, *agent));
        assert forall|k: int| 0 <= k < moves@.len() implies -1 <= (#[trigger] moves@[k]).0 <= 1 && -1 <= moves@[k].1 <= 1 by {
            assert(moves@ == family_moves(diagonal.direction, diagonal.half));
        }
    }
    let mut visited: Vec<(LocationTime, i32)> = Vec::new();
    match dfs(agent, &moves, aux_grid, additional_obstacles, agent.start, 0, deadline, clear, waits as i32, &mut visited) {
        Some(p) => (p, true),
        None => (Vec::new(), false),
    }
}

fn copy_indices(v: &Vec<usize>) -> (r: Vec<usize>)
    ensures
        r@ == v@,
{
    let mut r: Vec<usize> = Vec::new();
    let mut i: usize = 0;
    while i < v.len()
        invariant
            i <= v@.len(),
            r@ == v@.take(i as int),
        decreases v@.len() - i,
    {
        r.push(v[i]);
        i += 1;
        proof {
            assert(r@ =~= v@.take(i as int));
        }
    }
    proof {
        assert(v@.take(i as int) =~= v@);
    }
    r
}

fn contains_index(v: &Vec<usize>, x: usize) -> (r: bool)
    ensures
        r == v@.contains(x),
{
    let mut i: usize = 0;
    while i < v.len()
        invariant
            i <= v@.len(),
            forall|k: int| 0 <= k < i ==> v@[k] != x,
        decreases v@.len() - i,
    {
        if v[i] == x {
            return true;
        }
        i += 1;
    }
    false
}

/// Plans the agents of the given diagonals of one family, diagonal after diagonal. Only
/// agents without a path are planned. An agent's route keeps its constraints and avoids
/// the cells, at their times, of the agents planned before it on the same diagonal; the
/// goals of planned agents become permanent obstacles for the later diagonals. With
/// promotion, the agents of a minimum vertex cover of a diagonal's dependency graph are
/// put off to the next diagonal.
pub fn plan_diagonal_kind(
    agents: &Vec<Agent>,
    scenario: &Grid,
    constraints: &Vec<Constraint>,
    paths: &mut Vec<Path>,
    diagonals: &Vec<(Diagonal, Vec<usize>)>,
    slackness: i32,
    promotion: bool,
)
    requires
        old(paths)@.len() == agents@.len(),
        forall|k: int| 0 <= k < agents@.len() ==> agent_small(#[trigger] agents@[k]),
        forall|d: int, k: int| 0 <= d < diagonals@.len() && 0 <= k < diagonals@[d].1@.len() ==> (#[trigger] diagonals@[d].1@[k]) < agents@.len(),
    ensures
        final(paths)@.len() == old(paths)@.len(),
        forall|i: int| 0 <= i < agents@.len() && (#[trigger] old(paths)@[i])@.len() != 0 ==> final(paths)@[i] == old(paths)@[i],
        forall|i: int|
            0 <= i < agents@.len() && (#[trigger] final(paths)@[i])@.len() != 0 && old(paths)@[i]@.len() == 0
                ==> crate::high_level::valid_agent_path(scenario@, constraints@, i, agents@[i], final(paths)@[i]@)
                && diagonal_route(agents@[i], slackness, final(paths)@[i]@),
        forall|i: int| 0 <= i < agents@.len() && !#[trigger] in_lists(diagonals@, i) ==> final(paths)@[i] == old(paths)@[i],
        !promotion && disjoint_lists(diagonals@) ==> failures_upto(
            scenario@,
            constraints@,
            agents@,
            diagonals@,
            old(paths)@,
            final(paths)@,
            slackness,
            diagonals@.len() as int,
            0,
        ),
{
    let ghost orig = paths@;
    let ghost dd = diagonals@;
    let ghost cond = !promotion && disjoint_lists(diagonals@);
    let n = agents.len();
    let mut aux = Grid {
        width: scenario.width,
        height: scenario.height,
        obstacles: crate::grid::copy_obstacles(&scenario.obstacles),
        goal: scenario.goal,
    };
    let mut promoted: Vec<usize> = Vec::new();
    let ghost mut aux_tail: Seq<Entry> = Seq::empty();
    proof {
        assert(entries(aux.obstacles@) =~= entries(scenario.obstacles@) + aux_tail);
        assert(unconditional(goals_before(orig, paths@, agents@, dd, 0)) =~= Seq::<Entry>::empty());
    }
    let mut d: usize = 0;
    while d < diagonals.len()
        invariant
            d <= diagonals@.len(),
            n == agents@.len(),
            paths@.len() == n,
            aux.width == scenario.width,
            aux.height == scenario.height,
            entries(aux.obstacles@) == entries(scenario.obstacles@) + aux_tail,
            forall|i: int|
                0 <= i < n && (#[trigger] paths@[i])@.len() != 0 && old(paths)@[i]@.len() == 0
                    ==> crate::high_level::valid_agent_path(scenario@, constraints@, i, agents@[i], paths@[i]@)
                    && diagonal_route(agents@[i], slackness, paths@[i]@),
            forall|k: int| 0 <= k < agents@.len() ==> agent_small(#[trigger] agents@[k]),
            forall|e: int, k: int| 0 <= e < diagonals@.len() && 0 <= k < diagonals@[e].1@.len() ==> (#[trigger] diagonals@[e].1@[k]) < n,
            forall|k: int| 0 <= k < promoted@.len() ==> (#[trigger] promoted@[k]) < n,
            forall|i: int| 0 <= i < n && (#[trigger] old(paths)@[i])@.len() != 0 ==> paths@[i] == old(paths)@[i],
            orig == old(paths)@,
            dd == diagonals@,
            cond == (!promotion && disjoint_lists(diagonals@)),
            aux.goal == scenario.goal,
            !promotion ==> promoted@.len() == 0,
            cond ==> untouched(dd, orig, paths@, d as int, 0),
            cond ==> aux_tail == unconditional(goals_before(orig, paths@, agents@, dd, d as int)),
            cond ==> failures_upto(scenario@, constraints@, agents@, dd, orig, paths@, slackness, d as int, 0),
            forall|i: int| 0 <= i < n && !#[trigger] in_lists(dd, i) ==> paths@[i] == orig[i],
            forall|k: int| 0 <= k < promoted@.len() ==> in_lists(dd, #[trigger] promoted@[k] as int),
        decreases diagonals@.len() - d,
    {
        let diagonal = diagonals[d].0;
        let mut augmented = copy_indices(&diagonals[d].1);
        let mut extra_agents = copy_indices(&promoted);
        augmented.append(&mut extra_agents);
        proof {
            assert forall|k: int| 0 <= k < augmented@.len() implies (#[trigger] augmented@[k]) < n by {
                if k < diagonals@[d as int].1@.len() {
                    assert(augmented@[k] == diagonals@[d as int].1@[k]);
                } else {
                    assert(augmented@[k] == promoted@[k - diagonals@[d as int].1@.len()]);
                }
            }
        }
        proof {
            assert forall|k: int| 0 <= k < augmented@.len() implies in_lists(dd, #[trigger] augmented@[k] as int) by {
                if k < dd[d as int].1@.len() {
                    assert(augmented@[k] == dd[d as int].1@[k]);
                } else {
                    assert(augmented@[k] == promoted@[k - dd[d as int].1@.len()]);
                }
            }
        }
        let cover: Vec<usize> = if promotion {
            find_mvc(&build_dependency_graph(&augmented, agents))
        } else {
            Vec::new()
        };
        let ghost list = dd[d as int].1@;
        proof {
            if !promotion {
                assert(augmented@ =~= list);
            }
            if cond {
                assert(cells_before(orig, paths@, list, 0) =~= Seq::<LocationTime>::empty());
                assert(goals_in(orig, paths@, agents@, list, 0) =~= Seq::<LocationTime>::empty());
            }
        }
        let mut next_promoted: Vec<usize> = Vec::new();
        let mut planned: Vec<LocationTime> = Vec::new();
        let mut targets: Vec<LocationTime> = Vec::new();
        let mut p: usize = 0;
        while p < augmented.len()
            invariant
                p <= augmented@.len(),
                n == agents@.len(),
                paths@.len() == n,
                aux.width == scenario.width,
                aux.height == scenario.height,
                entries(aux.obstacles@) == entries(scenario.obstacles@) + aux_tail,
                forall|i: int|
                    0 <= i < n && (#[trigger] paths@[i])@.len() != 0 && old(paths)@[i]@.len() == 0
                        ==> crate::high_level::valid_agent_path(scenario@, constraints@, i, agents@[i], paths@[i]@)
                        && diagonal_route(agents@[i], slackness, paths@[i]@),
                forall|k: int| 0 <= k < agents@.len() ==> agent_small(#[trigger] agents@[k]),
                forall|k: int| 0 <= k < augmented@.len() ==> (#[trigger] augmented@[k]) < n,
                forall|k: int| 0 <= k < next_promoted@.len() ==> (#[trigger] next_promoted@[k]) < n,
                forall|i: int| 0 <= i < n && (#[trigger] old(paths)@[i])@.len() != 0 ==> paths@[i] == old(paths)@[i],
                d < dd.len(),
                list == dd[d as int].1@,
                diagonal == dd[d as int].0,
                forall|e: int, k: int| 0 <= e < dd.len() && 0 <= k < dd[e].1@.len() ==> (#[trigger] dd[e].1@[k]) < n,
                orig == old(paths)@,
                dd == diagonals@,
                cond == (!promotion && disjoint_lists(diagonals@)),
                aux.goal == scenario.goal,
                !promotion ==> augmented@ == list && cover@.len() == 0 && next_promoted@.len() == 0,
                cond ==> untouched(dd, orig, paths@, d as int, p as int),
                cond ==> aux_tail == unconditional(goals_before(orig, paths@, agents@, dd, d as int)),
                cond ==> planned@ == cells_before(orig, paths@, list, p as int),
                cond ==> targets@ == goals_in(orig, paths@, agents@, list, p as int),
                cond ==> failures_upto(scenario@, constraints@, agents@, dd, orig, paths@, slackness, d as int, p as int),
                forall|i: int| 0 <= i < n && !#[trigger] in_lists(dd, i) ==> paths@[i] == orig[i],
                forall|k: int| 0 <= k < next_promoted@.len() ==> in_lists(dd, #[trigger] next_promoted@[k] as int),
                forall|k: int| 0 <= k < augmented@.len() ==> in_lists(dd, #[trigger] augmented@[k] as int),
            decreases augmented@.len() - p,
        {
            let ghost pre = paths@;
            let ghost planned_pre = planned@;
            let ghost targets_pre = targets@;
            let ghost mut got = false;
            let ghost mut failed = false;
            let a = augmented[p];
            assert(in_lists(dd, a as int));
            if contains_index(&cover, p) {
                next_promoted.push(a);
            } else if paths[a].len() == 0 {
                let mut extra = constraints_to_obstacles(constraints, a);
                let mut avoid = Grid::to_conditional_obstacles(crate::high_level::copy_location_times(&planned));
                let ghost ce = extra@;
                let ghost av = avoid@;
                extra.append(&mut avoid);
                proof {
                    assert(entries(extra@) =~= entries(ce) + entries(av));
                }
                let (path, found) = plan_agent_path(&agents[a], &diagonal, &aux, &extra, slackness);
                proof {
                    if !found && cond {
                        assert(list[p as int] == a);
                        assert(entries(av) =~= unconditional(planned_pre)) by {
                            assert forall|x: int| 0 <= x < av.len() implies entries(av)[x] == unconditional(planned_pre)[x] by {
                                assert(av[x].1@ =~= Seq::<Cell>::empty());
                            }
                        }
                        assert(aux@.obstacles == scenario@.obstacles + unconditional(goals_before(orig, pre, agents@, dd, d as int)));
                        assert(aux@ == (GridModel {
                            width: scenario@.width,
                            height: scenario@.height,
                            obstacles: scenario@.obstacles + unconditional(goals_before(orig, pre, agents@, dd, d as int)),
                            goal: scenario@.goal,
                        }));
                        assert(planned_pre == cells_before(orig, pre, list, p as int));
                        assert(entries(ce) == constraint_entries(constraints@, a as int));
                        assert(entries(extra@) == constraint_entries(constraints@, a as int) + unconditional(
                            cells_before(orig, pre, list, p as int),
                        ));
                        assert(diagonal == dd[d as int].0);
                        assert(no_route_at(scenario@, constraints@, agents@, dd, orig, pre, slackness, d as int, p as int));
                        failed = true;
                    }
                }
                if found {
                    proof {
                        lemma_diag_walk_valid(
                            scenario@,
                            constraints@,
                            a as int,
                            agents@[a as int],
                            aux@,
                            aux_tail,
                            entries(av),
                            path@,
                        );
                        assert(moves_walk(family_moves(diagonal.direction, diagonal.half), path@));
                        assert forall|q: int| 0 <= q < path@.len() implies in_box(#[trigger] path@[q], agents@[a as int]) by {
                            if q == 0 {
                                assert(in_box(agents@[a as int].start, agents@[a as int]));
                            } else {
                                assert(diag_step(aux@, entries(extra@), agents@[a as int], path@[q - 1], path@[q], 0 + q));
                            }
                        }
                        assert(diagonal_route(agents@[a as int], slackness, path@));
                    }
                    let mut i: usize = 0;
                    while i < path.len() && i < i32::MAX as usize
                        invariant
                            i <= path@.len(),
                            i <= i32::MAX,
                            planned@ == planned_pre + cells_of(path@).take(i as int),
                        decreases path@.len() - i,
                    {
                        planned.push(LocationTime { location: path[i], time: i as i32 });
                        i += 1;
                        proof {
                            assert(planned@ =~= planned_pre + cells_of(path@).take(i as int));
                        }
                    }
                    proof {
                        assert(cells_of(path@).take(i as int) =~= cells_of(path@));
                    }
                    targets.push(LocationTime { location: agents[a].goal, time: -1 });
                    paths[a] = path;
                    proof {
                        got = true;
                    }
                }
            }
            proof {
                if cond {
                    let aa = list[p as int] as int;
                    assert(aa == a);
                    assert(pre[aa]@ == orig[aa]@);
                    assert(got ==> paths@ == pre.update(aa, paths@[aa]) && paths@[aa]@.len() != 0);
                    assert(!got ==> paths@ == pre);
                    // every other position holds another agent
                    assert forall|e: int, q: int|
                        0 <= e < dd.len() && 0 <= q < dd[e].1@.len() && (e != d || q != p) implies #[trigger] dd[e].1@[q] != a by {
                        assert(dd[d as int].1@[p as int] == a);
                    }
                    assert forall|e: int, q: int|
                        0 <= e < dd.len() && 0 <= q < dd[e].1@.len() && (e != d || q != p) implies (#[trigger] paths@[dd[e].1@[q] as int])@
                            == pre[dd[e].1@[q] as int]@ by {
                        let x = dd[e].1@[q] as int;
                        assert(dd[e].1@[q] != a);
                        assert(dd[e].1@[q] < n);
                        if got {
                            assert(paths@[x] == pre.update(aa, paths@[aa])[x]);
                        }
                    }
                    assert(untouched(dd, orig, paths@, d as int, p + 1));
                    assert forall|f: int| 0 <= f < d implies agree_on(paths@, pre, #[trigger] dd[f].1@, dd[f].1@.len() as int) by {
                        assert forall|q: int| 0 <= q < dd[f].1@.len() implies (#[trigger] paths@[dd[f].1@[q] as int])@
                            == pre[dd[f].1@[q] as int]@ by {
                            assert(dd[f].1@[q] != a);
                        }
                    }
                    assert forall|f: int| 0 <= f < d implies agree_on(orig, orig, #[trigger] dd[f].1@, dd[f].1@.len() as int) by {}
                    lemma_goals_frame(orig, paths@, orig, pre, agents@, dd, d as int);
                    assert(agree_on(paths@, pre, list, p as int)) by {
                        assert forall|q: int| 0 <= q < p implies (#[trigger] paths@[list[q] as int])@ == pre[list[q] as int]@ by {
                            assert(list[q] != a);
                        }
                    }
                    assert(agree_on(orig, orig, list, p as int));
                    lemma_prefix_frame(orig, paths@, orig, pre, agents@, list, p as int);
                    assert(newly_planned(orig, paths@, aa) == got);
                    if got {
                        assert(paths@[aa]@ == path_view_of(paths@, aa));
                    }
                    assert(planned@ == cells_before(orig, paths@, list, p + 1));
                    assert(targets@ =~= goals_in(orig, paths@, agents@, list, p + 1));
                    assert forall|e: int, q: int|
                        0 <= e < dd.len() && 0 <= q < dd[e].1@.len() && (e < d || (e == d && q < p + 1)) && orig[dd[e].1@[q] as int]@.len()
                            == 0 && (#[trigger] paths@[dd[e].1@[q] as int])@.len() == 0 implies no_route_at(
                        scenario@,
                        constraints@,
                        agents@,
                        dd,
                        orig,
                        paths@,
                        slackness,
                        e,
                        q,
                    ) by {
                        assert forall|f: int| 0 <= f < e implies agree_on(paths@, pre, #[trigger] dd[f].1@, dd[f].1@.len() as int) by {
                            assert forall|x: int| 0 <= x < dd[f].1@.len() implies (#[trigger] paths@[dd[f].1@[x] as int])@
                                == pre[dd[f].1@[x] as int]@ by {
                                assert(dd[f].1@[x] != a);
                            }
                        }
                        assert(agree_on(paths@, pre, dd[e].1@, q)) by {
                            assert forall|x: int| 0 <= x < q implies (#[trigger] paths@[dd[e].1@[x] as int])@ == pre[dd[e].1@[x] as int]@ by {
                                assert(dd[e].1@[x] != a);
                            }
                        }
                        assert forall|f: int| 0 <= f < e implies agree_on(orig, orig, #[trigger] dd[f].1@, dd[f].1@.len() as int) by {}
                        lemma_no_route_frame(scenario@, constraints@, agents@, dd, orig, paths@, orig, pre, slackness, e, q);
                        if e == d && q == p {
                            assert(failed);
                        } else {
                            assert(pre[dd[e].1@[q] as int]@.len() == 0);
                        }
                    }
                }
            }
            p += 1;
        }
        promoted = next_promoted;
        let mut goals = Grid::to_conditional_obstacles(targets);
        let ghost before = aux.obstacles@;
        let ghost gs = goals@;
        aux.obstacles.append(&mut goals);
        proof {
            assert(entries(aux.obstacles@) =~= entries(before) + entries(gs));
            aux_tail = aux_tail + entries(gs);
            assert(entries(aux.obstacles@) =~= entries(scenario.obstacles@) + aux_tail);
            if cond {
                assert(augmented@.len() == list.len());
                assert(entries(gs) =~= unconditional(targets@)) by {
                    assert forall|x: int| 0 <= x < gs.len() implies entries(gs)[x] == unconditional(targets@)[x] by {
                        assert(gs[x].1@ =~= Seq::<Cell>::empty());
                    }
                }
                assert(goals_before(orig, paths@, agents@, dd, d + 1) == goals_before(orig, paths@, agents@, dd, d as int)
                    + goals_in(orig, paths@, agents@, list, list.len() as int));
                assert(aux_tail =~= unconditional(goals_before(orig, paths@, agents@, dd, d + 1)));
            }
        }
        d += 1;
    }
}


pub open spec fn path_view_of(paths: Seq<Path>, a: int) -> Seq<Cell> {
    paths[a]@
}

/// Agent `a` got a path in this step: it had none before and has one now.
pub open spec fn newly_planned(old: Seq<Path>, cur: Seq<Path>, a: int) -> bool {
    old[a]@.len() == 0 && cur[a]@.len() != 0
}

/// The timed cells of a path, up to the largest time.
pub open spec fn cells_of(p: Seq<Cell>) -> Seq<LocationTime> {
    Seq::new(
        if p.len() < i32::MAX { p.len() } else { i32::MAX as nat },
        |t: int| LocationTime { location: p[t], time: t as i32 },
    )
}

/// Unconditional entries for the given timed cells.
pub open spec fn unconditional(lts: Seq<LocationTime>) -> Seq<Entry> {
    lts.map_values(|lt: LocationTime| (lt, Seq::<Cell>::empty()))
}

/// The timed cells of the agents newly planned at positions `0..p` of a diagonal.
pub open spec fn cells_before(old: Seq<Path>, cur: Seq<Path>, list: Seq<usize>, p: int) -> Seq<LocationTime>
    decreases p,
{
    if p <= 0 {
        Seq::empty()
    } else {
        cells_before(old, cur, list, p - 1) + if newly_planned(old, cur, list[p - 1] as int) {
            cells_of(cur[list[p - 1] as int]@)
        } else {
            Seq::empty()
        }
    }
}

/// The goals, as permanent cells, of the agents newly planned at positions `0..p`.
pub open spec fn goals_in(old: Seq<Path>, cur: Seq<Path>, agents: Seq<Agent>, list: Seq<usize>, p: int) -> Seq<LocationTime>
    decreases p,
{
    if p <= 0 {
        Seq::empty()
    } else {
        goals_in(old, cur, agents, list, p - 1) + if newly_planned(old, cur, list[p - 1] as int) {
            seq![LocationTime { location: agents[list[p - 1] as int].goal, time: -1i32 }]
        } else {
            Seq::empty()
        }
    }
}

/// The goals of the agents newly planned in the diagonals `0..e`.
pub open spec fn goals_before(old: Seq<Path>, cur: Seq<Path>, agents: Seq<Agent>, diags: Seq<(Diagonal, Vec<usize>)>, e: int) -> Seq<
    LocationTime,
>
    decreases e,
{
    if e <= 0 {
        Seq::empty()
    } else {
        goals_before(old, cur, agents, diags, e - 1) + goals_in(old, cur, agents, diags[e - 1].1@, diags[e - 1].1@.len() as int)
    }
}

/// No agent is listed twice over all the diagonals.
pub open spec fn disjoint_lists(diags: Seq<(Diagonal, Vec<usize>)>) -> bool {
    forall|e1: int, q1: int, e2: int, q2: int|
        0 <= e1 < diags.len() && 0 <= q1 < diags[e1].1@.len() && 0 <= e2 < diags.len() && 0 <= q2 < diags[e2].1@.len()
            && (e1 != e2 || q1 != q2) ==> #[trigger] diags[e1].1@[q1] != #[trigger] diags[e2].1@[q2]
}

/// The agent at position `q` of diagonal `e` has no route on the grid it was routed on:
/// the scenario with the goals of the agents planned in earlier diagonals, and its own
/// constraints with the cells of the agents planned before it in its diagonal.
pub open spec fn no_route_at(
    scenario: GridModel,
    cons: Seq<Constraint>,
    agents: Seq<Agent>,
    diags: Seq<(Diagonal, Vec<usize>)>,
    old: Seq<Path>,
    cur: Seq<Path>,
    slackness: i32,
    e: int,
    q: int,
) -> bool {
    let list = diags[e].1@;
    let a = list[q] as int;
    let dg = diags[e].0;
    let aux = GridModel {
        width: scenario.width,
        height: scenario.height,
        obstacles: scenario.obstacles + unconditional(goals_before(old, cur, agents, diags, e)),
        goal: scenario.goal,
    };
    let extra = constraint_entries(cons, a) + unconditional(cells_before(old, cur, list, q));
    !alive(
        aux,
        extra,
        agents[a],
        family_moves(dg.direction, dg.half),
        route_deadline(agents[a], slackness),
        max_int(latest_unconditional(extra, agents[a].goal), latest_unconditional(aux.obstacles, agents[a].goal)),
        agents[a].start,
        0,
        if slackness > 0 { slackness as int } else { 0 },
    )
}

/// Two path lists agree on the agents at positions `0..p` of `list`.
pub open spec fn agree_on(x: Seq<Path>, y: Seq<Path>, list: Seq<usize>, p: int) -> bool {
    forall|q: int| 0 <= q < p ==> (#[trigger] x[list[q] as int])@ == y[list[q] as int]@
}

proof fn lemma_prefix_frame(
    old1: Seq<Path>,
    cur1: Seq<Path>,
    old2: Seq<Path>,
    cur2: Seq<Path>,
    agents: Seq<Agent>,
    list: Seq<usize>,
    p: int,
)
    requires
        agree_on(old1, old2, list, p),
        agree_on(cur1, cur2, list, p),
    ensures
        cells_before(old1, cur1, list, p) == cells_before(old2, cur2, list, p),
        goals_in(old1, cur1, agents, list, p) == goals_in(old2, cur2, agents, list, p),
    decreases p,
{
    if p > 0 {
        assert(old1[list[p - 1] as int]@ == old2[list[p - 1] as int]@);
        assert(cur1[list[p - 1] as int]@ == cur2[list[p - 1] as int]@);
        lemma_prefix_frame(old1, cur1, old2, cur2, agents, list, p - 1);
    }
}

proof fn lemma_goals_frame(
    old1: Seq<Path>,
    cur1: Seq<Path>,
    old2: Seq<Path>,
    cur2: Seq<Path>,
    agents: Seq<Agent>,
    diags: Seq<(Diagonal, Vec<usize>)>,
    e: int,
)
    requires
        e <= diags.len(),
        forall|f: int| 0 <= f < e ==> agree_on(old1, old2, #[trigger] diags[f].1@, diags[f].1@.len() as int),
        forall|f: int| 0 <= f < e ==> agree_on(cur1, cur2, #[trigger] diags[f].1@, diags[f].1@.len() as int),
    ensures
        goals_before(old1, cur1, agents, diags, e) == goals_before(old2, cur2, agents, diags, e),
    decreases e,
{
    if e > 0 {
        lemma_goals_frame(old1, cur1, old2, cur2, agents, diags, e - 1);
        lemma_prefix_frame(old1, cur1, old2, cur2, agents, diags[e - 1].1@, diags[e - 1].1@.len() as int);
    }
}

/// Agent `i` is listed in some diagonal.
pub open spec fn in_lists(diags: Seq<(Diagonal, Vec<usize>)>, i: int) -> bool {
    exists|e: int, q: int| 0 <= e < diags.len() && 0 <= q < diags[e].1@.len() && diags[e].1@[q] == i
}

/// The agents at positions after `(d, p)` still have the paths they had.
pub open spec fn untouched(diags: Seq<(Diagonal, Vec<usize>)>, orig: Seq<Path>, cur: Seq<Path>, d: int, p: int) -> bool {
    forall|e: int, q: int|
        0 <= e < diags.len() && 0 <= q < diags[e].1@.len() && (e > d || (e == d && q >= p)) ==> (#[trigger] cur[diags[e].1@[q] as int])@
            == orig[diags[e].1@[q] as int]@
}

/// Every agent before position `(d, p)` that had no path and still has none had no route.
pub open spec fn failures_upto(
    scenario: GridModel,
    cons: Seq<Constraint>,
    agents: Seq<Agent>,
    diags: Seq<(Diagonal, Vec<usize>)>,
    orig: Seq<Path>,
    cur: Seq<Path>,
    slackness: i32,
    d: int,
    p: int,
) -> bool {
    forall|e: int, q: int|
        0 <= e < diags.len() && 0 <= q < diags[e].1@.len() && (e < d || (e == d && q < p)) && orig[diags[e].1@[q] as int]@.len() == 0
            && (#[trigger] cur[diags[e].1@[q] as int])@.len() == 0 ==> no_route_at(
            scenario,
            cons,
            agents,
            diags,
            orig,
            cur,
            slackness,
            e,
            q,
        )
}

/// Changing the path of an agent that sits at no position before `(e, q)` changes
/// nothing of the state that agent `(e, q)` was routed in.
proof fn lemma_no_route_frame(
    scenario: GridModel,
    cons: Seq<Constraint>,
    agents: Seq<Agent>,
    diags: Seq<(Diagonal, Vec<usize>)>,
    orig1: Seq<Path>,
    cur1: Seq<Path>,
    orig2: Seq<Path>,
    cur2: Seq<Path>,
    slackness: i32,
    e: int,
    q: int,
)
    requires
        0 <= e < diags.len(),
        0 <= q < diags[e].1@.len(),
        forall|f: int| 0 <= f < e ==> agree_on(cur1, cur2, #[trigger] diags[f].1@, diags[f].1@.len() as int),
        forall|f: int| 0 <= f < e ==> agree_on(orig1, orig2, #[trigger] diags[f].1@, diags[f].1@.len() as int),
        agree_on(cur1, cur2, diags[e].1@, q),
        agree_on(orig1, orig2, diags[e].1@, q),
    ensures
        no_route_at(scenario, cons, agents, diags, orig1, cur1, slackness, e, q) == no_route_at(
            scenario,
            cons,
            agents,
            diags,
            orig2,
            cur2,
            slackness,
            e,
            q,
        ),
{
    lemma_goals_frame(orig1, cur1, orig2, cur2, agents, diags, e);
    lemma_prefix_frame(orig1, cur1, orig2, cur2, agents, diags[e].1@, q);
}

/// Path lists that agree on every listed agent have the same failures.
proof fn lemma_failures_frame(
    scenario: GridModel,
    cons: Seq<Constraint>,
    agents: Seq<Agent>,
    diags: Seq<(Diagonal, Vec<usize>)>,
    orig1: Seq<Path>,
    cur1: Seq<Path>,
    orig2: Seq<Path>,
    cur2: Seq<Path>,
    slackness: i32,
)
    requires
        forall|f: int| 0 <= f < diags.len() ==> agree_on(cur1, cur2, #[trigger] diags[f].1@, diags[f].1@.len() as int),
        forall|f: int| 0 <= f < diags.len() ==> agree_on(orig1, orig2, #[trigger] diags[f].1@, diags[f].1@.len() as int),
        failures_upto(scenario, cons, agents, diags, orig1, cur1, slackness, diags.len() as int, 0),
    ensures
        failures_upto(scenario, cons, agents, diags, orig2, cur2, slackness, diags.len() as int, 0),
{
    assert forall|e: int, q: int|
        0 <= e < diags.len() && 0 <= q < diags[e].1@.len() && (e < diags.len() || (e == diags.len() && q < 0)) && orig2[diags[e].1@[q] as int]@.len() == 0
            && (#[trigger] cur2[diags[e].1@[q] as int])@.len() == 0 implies no_route_at(
        scenario,
        cons,
        agents,
        diags,
        orig2,
        cur2,
        slackness,
        e,
        q,
    ) by {
        assert(agree_on(cur1, cur2, diags[e].1@, diags[e].1@.len() as int));
        assert(agree_on(orig1, orig2, diags[e].1@, diags[e].1@.len() as int));
        assert(cur1[diags[e].1@[q] as int]@ == cur2[diags[e].1@[q] as int]@);
        assert(orig1[diags[e].1@[q] as int]@ == orig2[diags[e].1@[q] as int]@);
        assert(agree_on(cur1, cur2, diags[e].1@, q));
        assert(agree_on(orig1, orig2, diags[e].1@, q));
        lemma_no_route_frame(scenario, cons, agents, diags, orig1, cur1, orig2, cur2, slackness, e, q);
    }
}

/// The grouping of agents into diagonals that `find_diagonal_sets` gives.
pub open spec fn grouping_ok(agents: Seq<Agent>, width: int, groups: Seq<(Diagonal, Vec<usize>)>) -> bool {
    &&& forall|d: int, e: int| 0 <= d < e < groups.len() ==> groups[d].0 != groups[e].0
    &&& forall|d: int, k: int|
        0 <= d < groups.len() && 0 <= k < groups[d].1@.len() ==> (#[trigger] groups[d].1@[k]) < agents.len() && diagonal_of(
            agents[groups[d].1@[k] as int],
            width,
        ) == (groups[d].0.direction, groups[d].0.half, groups[d].0.offset as int)
    &&& forall|d: int, i: int, j: int|
        0 <= d < groups.len() && 0 <= i < j < groups[d].1@.len() ==> agent_key(groups[d].0.direction, groups[d].0.half, agents[groups[d].1@[i] as int])
            <= agent_key(groups[d].0.direction, groups[d].0.half, agents[groups[d].1@[j] as int])
    &&& forall|a: usize| a < agents.len() ==> #[trigger] grouped(groups, a)
    &&& forall|d: int| 0 <= d < groups.len() ==> (#[trigger] groups[d]).1@.no_duplicates()
}

/// The diagonals `ds` of family `k` of the grouping, most outside first.
pub open spec fn kind_order(groups: Seq<(Diagonal, Vec<usize>)>, k: int, ds: Seq<(Diagonal, Vec<usize>)>) -> bool {
    &&& forall|e: int| 0 <= e < ds.len() ==> ((#[trigger] ds[e]).0.direction, ds[e].0.half) == family_at(k)
    &&& forall|d: int, e: int| 0 <= d < e < ds.len() ==> diagonal_key(ds[d].0) <= diagonal_key(ds[e].0)
    &&& forall|d: int| 0 <= d < groups.len() && ((#[trigger] groups[d]).0.direction, groups[d].0.half) == family_at(k) ==> listed(ds, groups[d])
    &&& forall|e: int| 0 <= e < ds.len() ==> #[trigger] listed(groups, ds[e])
    &&& disjoint_lists(ds)
}

/// In family `k`, every agent that had no path and still has none had no route where it
/// was routed.
pub open spec fn kind_failures(
    scenario: GridModel,
    cons: Seq<Constraint>,
    agents: Seq<Agent>,
    groups: Seq<(Diagonal, Vec<usize>)>,
    old: Seq<Path>,
    cur: Seq<Path>,
    slackness: i32,
    k: int,
) -> bool {
    exists|ds: Seq<(Diagonal, Vec<usize>)>|
        #[trigger] kind_order(groups, k, ds) && failures_upto(scenario, cons, agents, ds, old, cur, slackness, ds.len() as int, 0)
}

/// The index of the family of `agent` in the order up-left, up-right, down-left,
/// down-right.
pub open spec fn family_index(agent: Agent, width: int) -> int {
    let d = diagonal_of(agent, width);
    if d.0 == DiagonalDirection::Up && d.1 == DiagonalHalf::Left {
        0
    } else if d.0 == DiagonalDirection::Up && d.1 == DiagonalHalf::Right {
        1
    } else if d.0 == DiagonalDirection::Down && d.1 == DiagonalHalf::Left {
        2
    } else {
        3
    }
}

proof fn lemma_grouping_disjoint(agents: Seq<Agent>, width: int, groups: Seq<(Diagonal, Vec<usize>)>)
    requires
        grouping_ok(agents, width, groups),
    ensures
        disjoint_lists(groups),
{
    assert forall|e1: int, q1: int, e2: int, q2: int|
        0 <= e1 < groups.len() && 0 <= q1 < groups[e1].1@.len() && 0 <= e2 < groups.len() && 0 <= q2 < groups[e2].1@.len() && (e1 != e2
            || q1 != q2) implies #[trigger] groups[e1].1@[q1] != #[trigger] groups[e2].1@[q2] by {
        if groups[e1].1@[q1] == groups[e2].1@[q2] {
            if e1 != e2 {
                let x = groups[e1].1@[q1] as int;
                assert(diagonal_of(agents[x], width) == (groups[e1].0.direction, groups[e1].0.half, groups[e1].0.offset as int));
                assert(diagonal_of(agents[x], width) == (groups[e2].0.direction, groups[e2].0.half, groups[e2].0.offset as int));
                assert(groups[e1].0 == groups[e2].0);
                if e1 < e2 {
                    assert(groups[e1].0 != groups[e2].0);
                } else {
                    assert(groups[e2].0 != groups[e1].0);
                }
            } else {
                assert(groups[e1].1@.no_duplicates());
            }
        }
    }
}

/// The members of a diagonal of family `k` belong to family `k`.
proof fn lemma_kind_members(
    agents: Seq<Agent>,
    width: int,
    groups: Seq<(Diagonal, Vec<usize>)>,
    k: int,
    ds: Seq<(Diagonal, Vec<usize>)>,
    e: int,
    q: int,
)
    requires
        grouping_ok(agents, width, groups),
        kind_order(groups, k, ds),
        0 <= k < 4,
        0 <= e < ds.len(),
        0 <= q < ds[e].1@.len(),
    ensures
        ds[e].1@[q] < agents.len(),
        family_index(agents[ds[e].1@[q] as int], width) == k,
{
    assert(listed(groups, ds[e]));
    let s = choose|s: int| 0 <= s < groups.len() && groups[s].0 == ds[e].0 && groups[s].1@ == ds[e].1@;
    assert(groups[s].1@[q] == ds[e].1@[q]);
    assert((ds[e].0.direction, ds[e].0.half) == family_at(k));
}

fn diag_key(d: &Diagonal) -> (r: i64)
    ensures
        r == diagonal_key(*d),
{
    let o = d.offset as i64;
    match (d.direction, d.half) {
        (DiagonalDirection::Up, DiagonalHalf::Left) => o,
        (DiagonalDirection::Up, DiagonalHalf::Right) => -o,
        (DiagonalDirection::Down, DiagonalHalf::Left) => -o,
        (DiagonalDirection::Down, DiagonalHalf::Right) => o,
    }
}

/// `r` holds a diagonal with the same agents as `item`.
pub open spec fn listed(r: Seq<(Diagonal, Vec<usize>)>, item: (Diagonal, Vec<usize>)) -> bool {
    exists|e: int| 0 <= e < r.len() && r[e].0 == item.0 && r[e].1@ == item.1@
}

/// The diagonals of one family, most outside first.
pub fn family_in_order(diagonals: &Vec<(Diagonal, Vec<usize>)>, direction: DiagonalDirection, half: DiagonalHalf, n: usize) -> (r: Vec<(Diagonal, Vec<usize>)>)
    requires
        forall|d: int, k: int| 0 <= d < diagonals@.len() && 0 <= k < diagonals@[d].1@.len() ==> (#[trigger] diagonals@[d].1@[k]) < n,
    ensures
        forall|d: int, k: int| 0 <= d < r@.len() && 0 <= k < r@[d].1@.len() ==> (#[trigger] r@[d].1@[k]) < n,
        forall|d: int| 0 <= d < r@.len() ==> (#[trigger] r@[d]).0.direction == direction && r@[d].0.half == half,
        forall|d: int, e: int| 0 <= d < e < r@.len() ==> diagonal_key(r@[d].0) <= diagonal_key(r@[e].0),
        forall|d: int|
            0 <= d < diagonals@.len() && (#[trigger] diagonals@[d]).0.direction == direction && diagonals@[d].0.half == half
                ==> listed(r@, diagonals@[d]),
        forall|e: int| 0 <= e < r@.len() ==> #[trigger] listed(diagonals@, r@[e]),
        disjoint_lists(diagonals@) ==> disjoint_lists(r@),
{
    let probe = Diagonal { direction, half, offset: 0 };
    let mut r: Vec<(Diagonal, Vec<usize>)> = Vec::new();
    let ghost mut src: Seq<int> = Seq::empty();
    let mut i: usize = 0;
    while i < diagonals.len()
        invariant
            i <= diagonals@.len(),
            probe.direction == direction && probe.half == half,
            forall|d: int, k: int| 0 <= d < diagonals@.len() && 0 <= k < diagonals@[d].1@.len() ==> (#[trigger] diagonals@[d].1@[k]) < n,
            forall|d: int, k: int| 0 <= d < r@.len() && 0 <= k < r@[d].1@.len() ==> (#[trigger] r@[d].1@[k]) < n,
            forall|d: int| 0 <= d < r@.len() ==> (#[trigger] r@[d]).0.direction == direction && r@[d].0.half == half,
            forall|d: int, e: int| 0 <= d < e < r@.len() ==> diagonal_key(r@[d].0) <= diagonal_key(r@[e].0),
            forall|d: int|
                0 <= d < i && (#[trigger] diagonals@[d]).0.direction == direction && diagonals@[d].0.half == half
                    ==> listed(r@, diagonals@[d]),
            src.len() == r@.len(),
            forall|e: int| 0 <= e < r@.len() ==> 0 <= #[trigger] src[e] < i && r@[e].0 == diagonals@[src[e]].0 && r@[e].1@
                == diagonals@[src[e]].1@,
            forall|e1: int, e2: int| 0 <= e1 < e2 < r@.len() ==> #[trigger] src[e1] != #[trigger] src[e2],
        decreases diagonals@.len() - i,
    {
        let dg = diagonals[i].0;
        if same_family(&dg, &probe) {
            let key = diag_key(&dg);
            let mut p: usize = 0;
            while p < r.len() && diag_key(&r[p].0) <= key
                invariant
                    p <= r@.len(),
                    forall|k: int| 0 <= k < p ==> diagonal_key(#[trigger] r@[k].0) <= key,
                decreases r@.len() - p,
            {
                p += 1;
            }
            let list = copy_indices(&diagonals[i].1);
            let ghost before = r@;
            let ghost item = (dg, list);
            let ghost src_before = src;
            r.insert(p, (dg, list));
            proof {
                src = src.insert(p as int, i as int);
                assert forall|e: int| 0 <= e < r@.len() implies 0 <= #[trigger] src[e] < i + 1 && r@[e].0 == diagonals@[src[e]].0
                    && r@[e].1@ == diagonals@[src[e]].1@ by {
                    if e < p {
                        assert(r@[e] == before[e]);
                        assert(src[e] == src_before[e]);
                    } else if e > p {
                        assert(r@[e] == before[e - 1]);
                        assert(src[e] == src_before[e - 1]);
                    }
                }
                assert forall|e1: int, e2: int| 0 <= e1 < e2 < r@.len() implies #[trigger] src[e1] != #[trigger] src[e2] by {
                    if e1 != p && e2 != p {
                        let b1 = if e1 < p { e1 } else { e1 - 1 };
                        let b2 = if e2 < p { e2 } else { e2 - 1 };
                        assert(src[e1] == src_before[b1]);
                        assert(src[e2] == src_before[b2]);
                    } else if e1 == p {
                        let b2 = if e2 < p { e2 } else { e2 - 1 };
                        assert(src[e2] == src_before[b2]);
                    } else {
                        let b1 = if e1 < p { e1 } else { e1 - 1 };
                        assert(src[e1] == src_before[b1]);
                    }
                }
                assert forall|d: int, k: int| 0 <= d < r@.len() && 0 <= k < r@[d].1@.len() implies (#[trigger] r@[d].1@[k]) < n by {
                    if d < p {
                        assert(r@[d] == before[d]);
                    } else if d > p {
                        assert(r@[d] == before[d - 1]);
                    } else {
                        assert(r@[d].1@ == diagonals@[i as int].1@);
                        assert(diagonals@[i as int].1@[k] < n);
                    }
                }
                assert forall|d: int|
                    0 <= d < i + 1 && (#[trigger] diagonals@[d]).0.direction == direction && diagonals@[d].0.half == half
                        implies listed(r@, diagonals@[d]) by {
                    if d < i {
                        let e = choose|e: int| 0 <= e < before.len() && before[e].0 == diagonals@[d].0 && before[e].1@ == diagonals@[d].1@;
                        if e < p {
                            assert(r@[e] == before[e]);
                        } else {
                            assert(r@[e + 1] == before[e]);
                        }
                    } else {
                        assert(r@[p as int].1@ == diagonals@[i as int].1@);
                    }
                }
                assert forall|d: int| 0 <= d < r@.len() implies (#[trigger] r@[d]).0.direction == direction && r@[d].0.half == half by {
                    if d < p {
                        assert(r@[d] == before[d]);
                    } else if d > p {
                        assert(r@[d] == before[d - 1]);
                    }
                }
                assert forall|d: int, e: int| 0 <= d < e < r@.len() implies diagonal_key(r@[d].0) <= diagonal_key(r@[e].0) by {
                    let bd = if d < p { d } else { d - 1 };
                    let be = if e < p { e } else { e - 1 };
                    if d == p {
                        assert(r@[e] == before[be]);
                        if p < before.len() {
                            assert(diagonal_key(before[p as int].0) > key);
                            if be > p {
                                assert(diagonal_key(before[p as int].0) <= diagonal_key(before[be].0));
                            }
                        }
                    } else if e == p {
                        assert(r@[d] == before[bd]);
                    } else {
                        assert(r@[d] == before[bd]);
                        assert(r@[e] == before[be]);
                    }
                }
            }
        }
        i += 1;
    }
    proof {
        assert forall|e: int| 0 <= e < r@.len() implies #[trigger] listed(diagonals@, r@[e]) by {
            assert(diagonals@[src[e]].0 == r@[e].0);
        }
        if disjoint_lists(diagonals@) {
            assert forall|e1: int, q1: int, e2: int, q2: int|
                0 <= e1 < r@.len() && 0 <= q1 < r@[e1].1@.len() && 0 <= e2 < r@.len() && 0 <= q2 < r@[e2].1@.len() && (e1 != e2
                    || q1 != q2) implies #[trigger] r@[e1].1@[q1] != #[trigger] r@[e2].1@[q2] by {
                assert(r@[e1].1@[q1] == diagonals@[src[e1]].1@[q1]);
                assert(r@[e2].1@[q2] == diagonals@[src[e2]].1@[q2]);
                if e1 != e2 {
                    if e1 < e2 {
                        assert(src[e1] != src[e2]);
                    } else {
                        assert(src[e2] != src[e1]);
                    }
                }
            }
        }
    }
    r
}

/// Plans the monotone agents that have no path yet, family after family (up-left,
/// up-right, down-left, down-right), the most outside diagonals of each first. Does
/// nothing when a coordinate is too large to add safely.
pub fn plan_two_direction_agents(
    agents: &Vec<Agent>,
    scenario: &Grid,
    constraints: &Vec<Constraint>,
    paths: &mut Vec<Path>,
    slackness: i32,
    promotion: bool,
)
    requires
        old(paths)@.len() == agents@.len(),
    ensures
        final(paths)@.len() == old(paths)@.len(),
        forall|i: int| 0 <= i < agents@.len() && (#[trigger] old(paths)@[i])@.len() != 0 ==> final(paths)@[i] == old(paths)@[i],
        forall|i: int|
            0 <= i < agents@.len() && (#[trigger] final(paths)@[i])@.len() != 0 && old(paths)@[i]@.len() == 0
                ==> crate::high_level::valid_agent_path(scenario@, constraints@, i, agents@[i], final(paths)@[i]@)
                && diagonal_route(agents@[i], slackness, final(paths)@[i]@),
        !promotion && -0x1000_0000 <= scenario.width < 0x1000_0000 && (forall|i: int| 0 <= i < agents@.len() ==> agent_small(
            #[trigger] agents@[i],
        )) ==> exists|groups: Seq<(Diagonal, Vec<usize>)>|
            grouping_ok(agents@, scenario.width as int, groups) && forall|k: int|
                0 <= k < 4 ==> #[trigger] kind_failures(
                    scenario@,
                    constraints@,
                    agents@,
                    groups,
                    old(paths)@,
                    final(paths)@,
                    slackness,
                    k,
                ),
{
    if !(-0x1000_0000 <= scenario.width && scenario.width < 0x1000_0000) {
        return;
    }
    let mut i: usize = 0;
    while i < agents.len()
        invariant
            i <= agents@.len(),
            forall|k: int| 0 <= k < i ==> agent_small(#[trigger] agents@[k]),
        decreases agents@.len() - i,
    {
        let a = &agents[i];
        if !(-0x1000_0000 <= a.start.0 && a.start.0 < 0x1000_0000 && -0x1000_0000 <= a.start.1 && a.start.1 < 0x1000_0000
            && -0x1000_0000 <= a.goal.0 && a.goal.0 < 0x1000_0000 && -0x1000_0000 <= a.goal.1 && a.goal.1 < 0x1000_0000) {
            return;
        }
        i += 1;
    }
    let n = agents.len();
    let diagonals = find_diagonal_sets(agents, scenario);
    let ghost width = scenario.width as int;
    proof {
        lemma_grouping_disjoint(agents@, width, diagonals@);
    }
    let kinds: Vec<(DiagonalDirection, DiagonalHalf)> = vec![
        (DiagonalDirection::Up, DiagonalHalf::Left),
        (DiagonalDirection::Up, DiagonalHalf::Right),
        (DiagonalDirection::Down, DiagonalHalf::Left),
        (DiagonalDirection::Down, DiagonalHalf::Right),
    ];
    proof {
        assert(forall|j: int| 0 <= j < 4 ==> #[trigger] kinds@[j] == family_at(j));
    }
    let mut k: usize = 0;
    while k < kinds.len()
        invariant
            n == agents@.len(),
            paths@.len() == n,
            forall|j: int| 0 <= j < agents@.len() ==> agent_small(#[trigger] agents@[j]),
            forall|d: int, j: int| 0 <= d < diagonals@.len() && 0 <= j < diagonals@[d].1@.len() ==> (#[trigger] diagonals@[d].1@[j]) < n,
            forall|j: int| 0 <= j < n && (#[trigger] old(paths)@[j])@.len() != 0 ==> paths@[j] == old(paths)@[j],
            forall|j: int|
                0 <= j < n && (#[trigger] paths@[j])@.len() != 0 && old(paths)@[j]@.len() == 0
                    ==> crate::high_level::valid_agent_path(scenario@, constraints@, j, agents@[j], paths@[j]@)
                    && diagonal_route(agents@[j], slackness, paths@[j]@),
            kinds@.len() == 4,
            forall|j: int| 0 <= j < 4 ==> #[trigger] kinds@[j] == family_at(j),
            width == scenario.width,
            grouping_ok(agents@, width, diagonals@),
            disjoint_lists(diagonals@),
            forall|j: int| 0 <= j < n && family_index(agents@[j], width) >= k ==> #[trigger] paths@[j] == old(paths)@[j],
            !promotion ==> forall|j: int|
                0 <= j < k ==> #[trigger] kind_failures(scenario@, constraints@, agents@, diagonals@, old(paths)@, paths@, slackness, j),
        decreases kinds@.len() - k,
    {
        let (direction, half) = kinds[k];
        let chosen = family_in_order(&diagonals, direction, half, n);
        let ghost mid = paths@;
        proof {
            assert((direction, half) == family_at(k as int));
            assert(kind_order(diagonals@, k as int, chosen@));
        }
        plan_diagonal_kind(agents, scenario, constraints, paths, &chosen, slackness, promotion);
        proof {
            let ch = chosen@;
            // members of the chosen diagonals belong to family k
            assert forall|j: int| 0 <= j < n && #[trigger] in_lists(ch, j) implies family_index(agents@[j], width) == k by {
                let (e, q) = choose|e: int, q: int| 0 <= e < ch.len() && 0 <= q < ch[e].1@.len() && ch[e].1@[q] == j;
                lemma_kind_members(agents@, width, diagonals@, k as int, ch, e, q);
            }
            assert forall|j: int| 0 <= j < n && family_index(agents@[j], width) >= k + 1 implies #[trigger] paths@[j] == old(paths)@[j] by {
                assert(!in_lists(ch, j));
                assert(mid[j] == old(paths)@[j]);
            }
            if !promotion {
                // the chosen family
                assert forall|f: int| 0 <= f < ch.len() implies agree_on(mid, old(paths)@, #[trigger] ch[f].1@, ch[f].1@.len() as int) by {
                    assert forall|q: int| 0 <= q < ch[f].1@.len() implies (#[trigger] mid[ch[f].1@[q] as int])@ == old(paths)@[ch[f].1@[q] as int]@ by {
                        lemma_kind_members(agents@, width, diagonals@, k as int, ch, f, q);
                    }
                }
                assert forall|f: int| 0 <= f < ch.len() implies agree_on(paths@, paths@, #[trigger] ch[f].1@, ch[f].1@.len() as int) by {}
                lemma_failures_frame(scenario@, constraints@, agents@, ch, mid, paths@, old(paths)@, paths@, slackness);
                assert(kind_failures(scenario@, constraints@, agents@, diagonals@, old(paths)@, paths@, slackness, k as int));
                // earlier families
                assert forall|j: int| 0 <= j < k + 1 implies #[trigger] kind_failures(
                    scenario@,
                    constraints@,
                    agents@,
                    diagonals@,
                    old(paths)@,
                    paths@,
                    slackness,
                    j,
                ) by {
                    if j < k {
                        assert(kind_failures(scenario@, constraints@, agents@, diagonals@, old(paths)@, mid, slackness, j));
                        let ds = choose|ds: Seq<(Diagonal, Vec<usize>)>| #[trigger] kind_order(diagonals@, j, ds) && failures_upto(
                            scenario@,
                            constraints@,
                            agents@,
                            ds,
                            old(paths)@,
                            mid,
                            slackness,
                            ds.len() as int,
                            0,
                        );
                        assert forall|f: int| 0 <= f < ds.len() implies agree_on(mid, paths@, #[trigger] ds[f].1@, ds[f].1@.len() as int) by {
                            assert forall|q: int| 0 <= q < ds[f].1@.len() implies (#[trigger] mid[ds[f].1@[q] as int])@
                                == paths@[ds[f].1@[q] as int]@ by {
                                lemma_kind_members(agents@, width, diagonals@, j, ds, f, q);
                                let x = ds[f].1@[q] as int;
                                assert(!in_lists(ch, x));
                            }
                        }
                        assert forall|f: int| 0 <= f < ds.len() implies agree_on(old(paths)@, old(paths)@, #[trigger] ds[f].1@, ds[f].1@.len() as int) by {}
                        lemma_failures_frame(scenario@, constraints@, agents@, ds, old(paths)@, mid, old(paths)@, paths@, slackness);
                    }
                }
            }
            assert forall|j: int| 0 <= j < n && (#[trigger] old(paths)@[j])@.len() != 0 implies paths@[j] == old(paths)@[j] by {
                assert(mid[j] == old(paths)@[j]);
            }
            assert forall|j: int|
                0 <= j < n && (#[trigger] paths@[j])@.len() != 0 && old(paths)@[j]@.len() == 0 implies crate::high_level::valid_agent_path(
                scenario@,
                constraints@,
                j,
                agents@[j],
                paths@[j]@,
            ) && diagonal_route(agents@[j], slackness, paths@[j]@) by {
                if mid[j]@.len() != 0 {
                    assert(paths@[j] == mid[j]);
                }
            }
        }
        k += 1;
    }
    proof {
        if !promotion {
            assert(grouping_ok(agents@, scenario.width as int, diagonals@));
            assert forall|j: int| 0 <= j < 4 implies #[trigger] kind_failures(
                scenario@,
                constraints@,
                agents@,
                diagonals@,
                old(paths)@,
                paths@,
                slackness,
                j,
            ) by {}
        }
    }
}

/// The number of agents in the diagonals of a family.
pub open spec fn family_count(diagonals: Seq<(Diagonal, Vec<usize>)>, direction: DiagonalDirection, half: DiagonalHalf) -> int
    decreases diagonals.len(),
{
    if diagonals.len() == 0 {
        0
    } else {
        family_count(diagonals.drop_last(), direction, half) + if diagonals.last().0.direction == direction
            && diagonals.last().0.half == half {
            diagonals.last().1@.len() as int
        } else {
            0
        }
    }
}

pub open spec fn family_at(k: int) -> (DiagonalDirection, DiagonalHalf) {
    if k == 0 {
        (DiagonalDirection::Up, DiagonalHalf::Left)
    } else if k == 1 {
        (DiagonalDirection::Up, DiagonalHalf::Right)
    } else if k == 2 {
        (DiagonalDirection::Down, DiagonalHalf::Left)
    } else {
        (DiagonalDirection::Down, DiagonalHalf::Right)
    }
}

fn count_family(diagonals: &Vec<(Diagonal, Vec<usize>)>, direction: DiagonalDirection, half: DiagonalHalf) -> (r: u128)
    ensures
        r == family_count(diagonals@, direction, half),
{
    let probe = Diagonal { direction, half, offset: 0 };
    let mut r: u128 = 0;
    let mut i: usize = 0;
    while i < diagonals.len()
        invariant
            i <= diagonals@.len(),
            probe.direction == direction && probe.half == half,
            r == family_count(diagonals@.take(i as int), direction, half),
            r <= i * 0x1_0000_0000_0000_0000,
        decreases diagonals@.len() - i,
    {
        proof {
            assert(diagonals@.take(i + 1).drop_last() =~= diagonals@.take(i as int));
        }
        if same_family(&diagonals[i].0, &probe) {
            r = r + diagonals[i].1.len() as u128;
        }
        i += 1;
    }
    proof {
        assert(diagonals@.take(i as int) =~= diagonals@);
    }
    r
}

/// The family with the most agents; among equals, the last in the order up-left,
/// up-right, down-left, down-right.
pub fn most_populous_diag_type(diagonals: &Vec<(Diagonal, Vec<usize>)>) -> (r: (DiagonalDirection, DiagonalHalf))
    ensures
        exists|k: int|
            0 <= k < 4 && r == family_at(k) && forall|j: int|
                0 <= j < 4 ==> #[trigger] family_count(diagonals@, family_at(j).0, family_at(j).1) <= family_count(
                    diagonals@,
                    family_at(k).0,
                    family_at(k).1,
                ) && (j > k ==> family_count(diagonals@, family_at(j).0, family_at(j).1) < family_count(
                    diagonals@,
                    family_at(k).0,
                    family_at(k).1,
                )),
{
    let c0 = count_family(diagonals, DiagonalDirection::Up, DiagonalHalf::Left);
    let c1 = count_family(diagonals, DiagonalDirection::Up, DiagonalHalf::Right);
    let c2 = count_family(diagonals, DiagonalDirection::Down, DiagonalHalf::Left);
    let c3 = count_family(diagonals, DiagonalDirection::Down, DiagonalHalf::Right);
    let mut best: u8 = 0;
    let mut bc = c0;
    if c1 >= bc {
        best = 1;
        bc = c1;
    }
    if c2 >= bc {
        best = 2;
        bc = c2;
    }
    if c3 >= bc {
        best = 3;
        bc = c3;
    }
    proof {
        assert(family_at(0) == (DiagonalDirection::Up, DiagonalHalf::Left));
        assert(family_at(1) == (DiagonalDirection::Up, DiagonalHalf::Right));
        assert(family_at(2) == (DiagonalDirection::Down, DiagonalHalf::Left));
        assert(family_at(3) == (DiagonalDirection::Down, DiagonalHalf::Right));
        assert(forall|j: int| 0 <= j < 4 ==> #[trigger] family_count(diagonals@, family_at(j).0, family_at(j).1) == if j == 0 {
            c0 as int
        } else if j == 1 {
            c1 as int
        } else if j == 2 {
            c2 as int
        } else {
            c3 as int
        });
    }
    if best == 0 {
        (DiagonalDirection::Up, DiagonalHalf::Left)
    } else if best == 1 {
        (DiagonalDirection::Up, DiagonalHalf::Right)
    } else if best == 2 {
        (DiagonalDirection::Down, DiagonalHalf::Left)
    } else {
        (DiagonalDirection::Down, DiagonalHalf::Right)
    }
}


/// A step run on a node before its missing paths go to the low level.
pub trait CTNodePreprocessor {
    /// May give valid paths to agents that have none; keeps every path there is.
    fn preprocess(&self, agents: &Vec<Agent>, scenario: &Grid, constraints: &Vec<Constraint>, paths: &mut Vec<Path>)
        requires
            old(paths)@.len() == agents@.len(),
        ensures
            final(paths)@.len() == old(paths)@.len(),
            forall|i: int|
                0 <= i < agents@.len() && (#[trigger] old(paths)@[i])@.len() != 0 ==> final(paths)@[i] == old(paths)@[i],
            forall|i: int|
                0 <= i < agents@.len() && (#[trigger] final(paths)@[i])@.len() != 0 && old(paths)@[i]@.len() == 0
                    ==> crate::high_level::valid_agent_path(scenario@, constraints@, i, agents@[i], final(paths)@[i]@),
    ;
}

/// The preprocessor that does nothing.
pub struct IdentityPreprocessor {}

impl IdentityPreprocessor {
    pub fn new() -> Self {
        IdentityPreprocessor {  }
    }
}

impl CTNodePreprocessor for IdentityPreprocessor {
    fn preprocess(&self, agents: &Vec<Agent>, scenario: &Grid, constraints: &Vec<Constraint>, paths: &mut Vec<Path>) {
    }
}

/// The diagonal subsolver as a preprocessor.
pub struct DiagonalSubsolver {
    pub slackness: i32,
    pub promotion_enabled: bool,
}

impl DiagonalSubsolver {
    pub fn new(slackness: i32, promotion_enabled: bool) -> (r: Self)
        ensures
            r.slackness == slackness,
            r.promotion_enabled == promotion_enabled,
    {
        DiagonalSubsolver { slackness, promotion_enabled }
    }
}

impl CTNodePreprocessor for DiagonalSubsolver {
    fn preprocess(&self, agents: &Vec<Agent>, scenario: &Grid, constraints: &Vec<Constraint>, paths: &mut Vec<Path>) {
        plan_two_direction_agents(agents, scenario, constraints, paths, self.slackness, self.promotion_enabled);
    }
}

} // verus!
