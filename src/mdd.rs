//! Multi-value decision diagrams: the cells on the paths of a given length.
use vstd::prelude::*;
use crate::grid::{Cell, Grid, GridModel, LocationTime};
use crate::high_level::Agent;
use crate::low_level::{next_layer, reachable, shaped, table, lemma_reachable_in_bounds};

verus! {

#[derive(Debug, Clone, Copy, PartialEq, Eq)]
pub enum MDDError {
    /// No path of the asked length leads from the start to the goal.
    GoalUnreachable,
}

/// Horizontal part of move `m`, as in the low level.
pub open spec fn step_dx(m: int) -> int {
    if m == 2 {
        1
    } else if m == 4 {
        -1
    } else {
        0
    }
}

pub open spec fn step_dy(m: int) -> int {
    if m == 1 {
        1
    } else if m == 3 {
        -1
    } else {
        0
    }
}

/// The cell that move `m` leads to from `c`.
pub open spec fn succ(c: Cell, m: int) -> Cell {
    ((c.0 + step_dx(m)) as i32, (c.1 + step_dy(m)) as i32)
}

/// Whether an agent on `cell` at time `k` can stand on `goal` at time `c`.
pub open spec fn coreachable(grid: GridModel, goal: Cell, c: int, k: int, cell: Cell) -> bool
    decreases c - k,
{
    if k >= c {
        cell == goal
    } else {
        exists|m: int|
            0 <= m < 5 && grid.valid_step(cell, #[trigger] succ(cell, m), k + 1) && coreachable(grid, goal, c, k + 1, succ(cell, m))
    }
}

/// The start of `agent` at time 0.
pub open spec fn start_at_zero(agent: Agent) -> LocationTime {
    LocationTime { location: agent.start, time: 0 }
}

/// Cell `cell` lies, at time `k`, on a path of `c` steps from the agent's start to its goal.
pub open spec fn in_layer(grid: GridModel, agent: Agent, c: int, k: int, cell: Cell) -> bool {
    &&& grid.in_bounds(cell)
    &&& reachable(grid, start_at_zero(agent), k as nat, cell)
    &&& coreachable(grid, agent.goal, c, k, cell)
}

/// Some path of exactly `c` steps leads from the agent's start on the grid to its goal.
pub open spec fn has_path(grid: GridModel, agent: Agent, c: int) -> bool {
    &&& 0 <= c
    &&& grid.in_bounds(agent.start)
    &&& reachable(grid, start_at_zero(agent), c as nat, agent.goal)
}

/// `r` is the MDD of `agent` on `grid` for paths of `c` steps: an error just when there
/// is no such path, else the layers `0..=c`, each without repeats, and a cell in layer `k`
/// just when it is in `L_k`.
pub open spec fn is_mdd(r: Result<Vec<Vec<Cell>>, MDDError>, grid: GridModel, agent: Agent, c: int) -> bool {
    &&& (r is Err <==> !has_path(grid, agent, c))
    &&& r matches Ok(layers) ==> {
        &&& layers@.len() == c + 1
        &&& forall|k: int| 0 <= k <= c ==> (#[trigger] layers@[k])@.no_duplicates()
        &&& forall|k: int, cell: Cell|
            0 <= k <= c ==> (#[trigger] layers@[k]@.contains(cell) <==> in_layer(grid, agent, c, k, cell))
    }
}

/// Whether an agent on `(x, y)` at time `k` can reach the goal at time `c`, given that
/// `nxt` tells it for time `k + 1`.
fn back_cell(grid: &Grid, goal: Cell, c: i32, k: i32, nxt: &Vec<Vec<bool>>, x: i32, y: i32) -> (r: bool)
    requires
        0 <= k < c,
        grid@.in_bounds((x, y)),
        shaped(nxt@, grid.width as int, grid.height as int),
        forall|a: int, b: int|
            0 <= a < grid.width && 0 <= b < grid.height ==> nxt@[a]@[b] == coreachable(
                grid@,
                goal,
                c as int,
                k + 1,
                (a as i32, b as i32),
            ),
    ensures
        r == coreachable(grid@, goal, c as int, k as int, (x, y)),
{
    let mut m: u8 = 0;
    while m < 5
        invariant
            m <= 5,
            0 <= k < c,
            grid@.in_bounds((x, y)),
            shaped(nxt@, grid.width as int, grid.height as int),
            forall|a: int, b: int|
                0 <= a < grid.width && 0 <= b < grid.height ==> nxt@[a]@[b] == coreachable(
                    grid@,
                    goal,
                    c as int,
                    k + 1,
                    (a as i32, b as i32),
                ),
            forall|j: int|
                0 <= j < m ==> !(grid@.valid_step((x, y), #[trigger] succ((x, y), j), k + 1) && coreachable(
                    grid@,
                    goal,
                    c as int,
                    k + 1,
                    succ((x, y), j),
                )),
        decreases 5 - m,
    {
        let sx: i32 = if m == 2 {
            x + 1
        } else if m == 4 {
            x - 1
        } else {
            x
        };
        let sy: i32 = if m == 1 {
            y + 1
        } else if m == 3 {
            y - 1
        } else {
            y
        };
        assert(succ((x, y), m as int) == (sx, sy));
        if 0 <= sx && sx < grid.width && 0 <= sy && sy < grid.height {
            if nxt[sx as usize][sy as usize] && crate::high_level::is_adjacent_or_same((x, y), (sx, sy))
                && grid.is_valid_location_time(&LocationTime { location: (sx, sy), time: k + 1 }, &(x, y)) {
                return true;
            }
        }
        m += 1;
    }
    false
}

/// The cells of a table that hold `true`, column by column.
fn cells_where(t: &Vec<Vec<bool>>, w: i32, h: i32) -> (r: Vec<Cell>)
    requires
        w >= 0,
        h >= 0,
        shaped(t@, w as int, h as int),
    ensures
        r@.no_duplicates(),
        forall|c: Cell| #[trigger] r@.contains(c) <==> 0 <= c.0 < w && 0 <= c.1 < h && t@[c.0 as int]@[c.1 as int],
{
    let mut r: Vec<Cell> = Vec::new();
    let mut x: i32 = 0;
    while x < w
        invariant
            0 <= x <= w,
            h >= 0,
            shaped(t@, w as int, h as int),
            r@.no_duplicates(),
            forall|c: Cell| #[trigger] r@.contains(c) <==> 0 <= c.0 < x && 0 <= c.1 < h && t@[c.0 as int]@[c.1 as int],
        decreases w - x,
    {
        let mut y: i32 = 0;
        while y < h
            invariant
                0 <= x < w,
                0 <= y <= h,
                shaped(t@, w as int, h as int),
                r@.no_duplicates(),
                forall|c: Cell|
                    #[trigger] r@.contains(c) <==> 0 <= c.0 && 0 <= c.1 < h && (c.0 < x || (c.0 == x && c.1 < y))
                        && t@[c.0 as int]@[c.1 as int],
            decreases h - y,
        {
            if t[x as usize][y as usize] {
                let ghost before = r@;
                r.push((x, y));
                proof {
                    assert forall|c: Cell| #[trigger] r@.contains(c) <==> 0 <= c.0 && 0 <= c.1 < h && (c.0 < x || (c.0 == x
                        && c.1 < y + 1)) && t@[c.0 as int]@[c.1 as int] by {
                        if r@.contains(c) && c != (x, y) {
                            let i = choose|i: int| 0 <= i < r@.len() && r@[i] == c;
                            assert(before[i] == c);
                            assert(before.contains(c));
                        }
                        if before.contains(c) {
                            let i = choose|i: int| 0 <= i < before.len() && before[i] == c;
                            assert(r@[i] == c);
                        }
                        if c == (x, y) {
                            assert(r@[r@.len() - 1] == c);
                        }
                    }
                    assert forall|i: int, j: int| 0 <= i < j < r@.len() implies r@[i] != r@[j] by {
                        if j == r@.len() - 1 {
                            assert(before.contains(before[i]));
                        }
                    }
                }
            }
            y += 1;
        }
        x += 1;
    }
    r
}


/// The table telling for every cell whether it can reach the goal at time `c` from time
/// `k`, given the table for time `k + 1`.
fn back_layer(grid: &Grid, goal: Cell, c: i32, k: i32, nxt: &Vec<Vec<bool>>) -> (r: Vec<Vec<bool>>)
    requires
        0 <= k < c,
        grid.width >= 0,
        grid.height >= 0,
        shaped(nxt@, grid.width as int, grid.height as int),
        forall|a: int, b: int|
            0 <= a < grid.width && 0 <= b < grid.height ==> nxt@[a]@[b] == coreachable(
                grid@,
                goal,
                c as int,
                k + 1,
                (a as i32, b as i32),
            ),
    ensures
        shaped(r@, grid.width as int, grid.height as int),
        forall|a: int, b: int|
            0 <= a < grid.width && 0 <= b < grid.height ==> r@[a]@[b] == coreachable(
                grid@,
                goal,
                c as int,
                k as int,
                (a as i32, b as i32),
            ),
{
    let mut r: Vec<Vec<bool>> = Vec::new();
    let mut x: i32 = 0;
    while x < grid.width
        invariant
            0 <= x <= grid.width,
            0 <= k < c,
            grid.height >= 0,
            shaped(nxt@, grid.width as int, grid.height as int),
            forall|a: int, b: int|
                0 <= a < grid.width && 0 <= b < grid.height ==> nxt@[a]@[b] == coreachable(
                    grid@,
                    goal,
                    c as int,
                    k + 1,
                    (a as i32, b as i32),
                ),
            shaped(r@, x as int, grid.height as int),
            forall|a: int, b: int|
                0 <= a < x && 0 <= b < grid.height ==> r@[a]@[b] == coreachable(
                    grid@,
                    goal,
                    c as int,
                    k as int,
                    (a as i32, b as i32),
                ),
        decreases grid.width - x,
    {
        let mut col: Vec<bool> = Vec::new();
        let mut y: i32 = 0;
        while y < grid.height
            invariant
                0 <= x < grid.width,
                0 <= y <= grid.height,
                0 <= k < c,
                shaped(nxt@, grid.width as int, grid.height as int),
                forall|a: int, b: int|
                    0 <= a < grid.width && 0 <= b < grid.height ==> nxt@[a]@[b] == coreachable(
                        grid@,
                        goal,
                        c as int,
                        k + 1,
                        (a as i32, b as i32),
                    ),
                col@.len() == y,
                forall|b: int| 0 <= b < y ==> col@[b] == coreachable(grid@, goal, c as int, k as int, (x, b as i32)),
            decreases grid.height - y,
        {
            col.push(back_cell(grid, goal, c, k, nxt, x, y));
            y += 1;
        }
        r.push(col);
        proof {
            assert forall|a: int, b: int| 0 <= a < x + 1 && 0 <= b < grid.height implies r@[a]@[b] == coreachable(
                grid@,
                goal,
                c as int,
                k as int,
                (a as i32, b as i32),
            ) by {
                if a == x {
                    assert(r@[a] == col);
                }
            }
        }
        x += 1;
    }
    r
}

/// The table of one cell.
fn single(w: i32, h: i32, cell: Cell) -> (r: Vec<Vec<bool>>)
    requires
        w >= 0,
        h >= 0,
    ensures
        shaped(r@, w as int, h as int),
        forall|a: int, b: int| 0 <= a < w && 0 <= b < h ==> r@[a]@[b] == ((a as i32, b as i32) == cell),
{
    let mut r: Vec<Vec<bool>> = Vec::new();
    let mut x: i32 = 0;
    while x < w
        invariant
            0 <= x <= w,
            h >= 0,
            shaped(r@, x as int, h as int),
            forall|a: int, b: int| 0 <= a < x && 0 <= b < h ==> r@[a]@[b] == ((a as i32, b as i32) == cell),
        decreases w - x,
    {
        let mut col: Vec<bool> = Vec::new();
        let mut y: i32 = 0;
        while y < h
            invariant
                0 <= x < w,
                0 <= y <= h,
                col@.len() == y,
                forall|b: int| 0 <= b < y ==> col@[b] == ((x, b as i32) == cell),
            decreases h - y,
        {
            col.push(x == cell.0 && y == cell.1);
            y += 1;
        }
        r.push(col);
        proof {
            assert forall|a: int, b: int| 0 <= a < x + 1 && 0 <= b < h implies r@[a]@[b] == ((a as i32, b as i32) == cell) by {
                if a == x {
                    assert(r@[a] == col);
                }
            }
        }
        x += 1;
    }
    r
}

/// Both tables hold `true`.
fn both(p: &Vec<Vec<bool>>, q: &Vec<Vec<bool>>, w: i32, h: i32) -> (r: Vec<Vec<bool>>)
    requires
        w >= 0,
        h >= 0,
        shaped(p@, w as int, h as int),
        shaped(q@, w as int, h as int),
    ensures
        shaped(r@, w as int, h as int),
        forall|a: int, b: int| 0 <= a < w && 0 <= b < h ==> r@[a]@[b] == (p@[a]@[b] && q@[a]@[b]),
{
    let mut r: Vec<Vec<bool>> = Vec::new();
    let mut x: usize = 0;
    while x < w as usize
        invariant
            x <= w,
            h >= 0,
            shaped(p@, w as int, h as int),
            shaped(q@, w as int, h as int),
            shaped(r@, x as int, h as int),
            forall|a: int, b: int| 0 <= a < x && 0 <= b < h ==> r@[a]@[b] == (p@[a]@[b] && q@[a]@[b]),
        decreases w - x,
    {
        let mut col: Vec<bool> = Vec::new();
        let mut y: usize = 0;
        while y < h as usize
            invariant
                x < w,
                y <= h,
                shaped(p@, w as int, h as int),
                shaped(q@, w as int, h as int),
                col@.len() == y,
                forall|b: int| 0 <= b < y ==> col@[b] == (p@[x as int]@[b] && q@[x as int]@[b]),
            decreases h - y,
        {
            col.push(p[x][y] && q[x][y]);
            y += 1;
        }
        r.push(col);
        proof {
            assert forall|a: int, b: int| 0 <= a < x + 1 && 0 <= b < h implies r@[a]@[b] == (p@[a]@[b] && q@[a]@[b]) by {
                if a == x {
                    assert(r@[a] == col);
                }
            }
        }
        x += 1;
    }
    r
}

/// The layers `L_0, ..., L_c`: `L_k` holds the cells where some path of exactly `c`
/// steps from the agent's start to its goal on `scenario` stands at time `k`. Fails when
/// there is no such path.
pub fn mdd(agent: &Agent, scenario: &Grid, c: i32) -> (r: Result<Vec<Vec<Cell>>, MDDError>)
    ensures
        is_mdd(r, scenario@, *agent, c as int),
{
    let start = LocationTime { location: agent.start, time: 0 };
    if c < 0 || !(0 <= agent.start.0 && agent.start.0 < scenario.width && 0 <= agent.start.1 && agent.start.1
        < scenario.height) {
        return Err(MDDError::GoalUnreachable);
    }
    let w = scenario.width;
    let h = scenario.height;
    let mut fw: Vec<Vec<Vec<bool>>> = Vec::new();
    let mut cur = single(w, h, agent.start);
    proof {
        assert forall|a: int, b: int| 0 <= a < w && 0 <= b < h implies cur@[a]@[b] == reachable(
            scenario@,
            start,
            0,
            (a as i32, b as i32),
        ) by {}
    }
    let zeros: Vec<Vec<u64>> = table(w as usize, h as usize, 0u64);
    let no_table: Vec<LocationTime> = Vec::new();
    let mut k: i32 = 0;
    while k < c
        invariant
            0 <= k <= c,
            w == scenario.width,
            h == scenario.height,
            scenario@.in_bounds(agent.start),
            start == start_at_zero(*agent),
            fw@.len() == k,
            shaped(zeros@, w as int, h as int),
            forall|a: int, b: int| 0 <= a < w && 0 <= b < h ==> zeros@[a]@[b] == 0,
            shaped(cur@, w as int, h as int),
            forall|a: int, b: int| 0 <= a < w && 0 <= b < h ==> cur@[a]@[b] == reachable(scenario@, start, k as nat, (a as i32, b as i32)),
            forall|j: int| 0 <= j < k ==> shaped(#[trigger] fw@[j]@, w as int, h as int),
            forall|j: int, a: int, b: int|
                0 <= j < k && 0 <= a < w && 0 <= b < h ==> (#[trigger] fw@[j]@[a]@[b]) == reachable(
                    scenario@,
                    start,
                    j as nat,
                    (a as i32, b as i32),
                ),
        decreases c - k,
    {
        let (next, _, _) = next_layer(scenario, start, k as usize, &cur, &zeros, &no_table);
        fw.push(cur);
        cur = next;
        k += 1;
    }
    let goal = agent.goal;
    if !(0 <= goal.0 && goal.0 < w && 0 <= goal.1 && goal.1 < h) || !cur[goal.0 as usize][goal.1 as usize] {
        proof {
            if reachable(scenario@, start, c as nat, goal) {
                lemma_reachable_in_bounds(scenario@, start, c as nat, goal);
            }
        }
        return Err(MDDError::GoalUnreachable);
    }
    fw.push(cur);
    let mut layers: Vec<Vec<Cell>> = Vec::new();
    let n: usize = c as usize + 1;
    while layers.len() < n
        invariant
            layers@.len() <= n,
            n == c + 1,
        decreases n - layers@.len(),
    {
        layers.push(Vec::new());
    }
    let mut bk = single(w, h, goal);
    let mut k: i32 = c;
    while k >= 0
        invariant
            -1 <= k <= c,
            w == scenario.width,
            h == scenario.height,
            w >= 0 && h >= 0,
            start == start_at_zero(*agent),
            goal == agent.goal,
            fw@.len() == c + 1,
            layers@.len() == c + 1,
            forall|j: int| 0 <= j <= c ==> shaped(#[trigger] fw@[j]@, w as int, h as int),
            forall|j: int, a: int, b: int|
                0 <= j <= c && 0 <= a < w && 0 <= b < h ==> (#[trigger] fw@[j]@[a]@[b]) == reachable(
                    scenario@,
                    start,
                    j as nat,
                    (a as i32, b as i32),
                ),
            shaped(bk@, w as int, h as int),
            k >= 0 ==> forall|a: int, b: int|
                0 <= a < w && 0 <= b < h ==> bk@[a]@[b] == coreachable(scenario@, goal, c as int, k as int, (a as i32, b as i32)),
            forall|j: int| k < j <= c ==> (#[trigger] layers@[j])@.no_duplicates(),
            forall|j: int, cell: Cell|
                k < j <= c ==> (#[trigger] layers@[j]@.contains(cell) <==> in_layer(scenario@, *agent, c as int, j, cell)),
        decreases k + 1,
    {
        let here = both(&fw[k as usize], &bk, w, h);
        let cells = cells_where(&here, w, h);
        proof {
            assert forall|cell: Cell| #[trigger] cells@.contains(cell) <==> in_layer(scenario@, *agent, c as int, k as int, cell) by {
                if cells@.contains(cell) {
                    assert(fw@[k as int]@[cell.0 as int]@[cell.1 as int] == reachable(scenario@, start, k as nat, ((cell.0 as int) as i32, (cell.1 as int) as i32)));
                }
                if in_layer(scenario@, *agent, c as int, k as int, cell) {
                    assert(fw@[k as int]@[cell.0 as int]@[cell.1 as int] == reachable(scenario@, start, k as nat, ((cell.0 as int) as i32, (cell.1 as int) as i32)));
                }
            }
        }
        layers[k as usize] = cells;
        if k > 0 {
            bk = back_layer(scenario, goal, c, k - 1, &bk);
        }
        k -= 1;
    }
    Ok(layers)
}


/// Layer `k` of an MDD; past its end, the last layer (the agent waits at its goal).
pub open spec fn layer_at(m: Seq<Seq<Cell>>, k: int) -> Seq<Cell> {
    if k < m.len() {
        m[k]
    } else {
        m.last()
    }
}

pub open spec fn mdd_view(m: Seq<Vec<Cell>>) -> Seq<Seq<Cell>> {
    m.map_values(|l: Vec<Cell>| l@)
}

/// The pair `(u, v)` is in layer `k` of the joint MDD: `u` and `v` are in layer `k` of
/// their MDDs, they differ, and the swapped pair is not in layer `k - 1`.
pub open spec fn in_joint(m1: Seq<Seq<Cell>>, m2: Seq<Seq<Cell>>, k: int, pair: (Cell, Cell)) -> bool
    decreases k,
{
    &&& layer_at(m1, k).contains(pair.0)
    &&& layer_at(m2, k).contains(pair.1)
    &&& pair.0 != pair.1
    &&& (k <= 0 || !in_joint(m1, m2, k - 1, (pair.1, pair.0)))
}

/// Whether `list` holds `pair`.
fn contains_pair(list: &Vec<(Cell, Cell)>, pair: (Cell, Cell)) -> (r: bool)
    ensures
        r == list@.contains(pair),
{
    let mut i: usize = 0;
    while i < list.len()
        invariant
            i <= list@.len(),
            forall|k: int| 0 <= k < i ==> list@[k] != pair,
        decreases list@.len() - i,
    {
        let (a, b) = list[i];
        if crate::grid::same_cell(a, pair.0) && crate::grid::same_cell(b, pair.1) {
            return true;
        }
        i += 1;
    }
    false
}

/// Layer `k` of an MDD, or its last layer past its end.
fn layer_of(m: &Vec<Vec<Cell>>, k: usize) -> (r: &Vec<Cell>)
    requires
        m@.len() > 0,
    ensures
        r@ == layer_at(mdd_view(m@), k as int),
{
    if k < m.len() {
        &m[k]
    } else {
        &m[m.len() - 1]
    }
}

/// The joint MDD of two agents, layers `0..=c`.
pub fn merge_mdds(mdd1: &Vec<Vec<Cell>>, mdd2: &Vec<Vec<Cell>>, c: i32) -> (r: Vec<Vec<(Cell, Cell)>>)
    requires
        mdd1@.len() > 0,
        mdd2@.len() > 0,
        forall|k: int| 0 <= k < mdd1@.len() ==> (#[trigger] mdd1@[k])@.no_duplicates(),
        forall|k: int| 0 <= k < mdd2@.len() ==> (#[trigger] mdd2@[k])@.no_duplicates(),
    ensures
        r@.len() == (if c >= 0 { c + 1 } else { 0 }),
        forall|k: int| 0 <= k < r@.len() ==> (#[trigger] r@[k])@.no_duplicates(),
        forall|k: int, pair: (Cell, Cell)|
            0 <= k < r@.len() ==> (#[trigger] r@[k]@.contains(pair) <==> in_joint(mdd_view(mdd1@), mdd_view(mdd2@), k, pair)),
{
    let ghost m1 = mdd_view(mdd1@);
    let ghost m2 = mdd_view(mdd2@);
    let mut r: Vec<Vec<(Cell, Cell)>> = Vec::new();
    if c < 0 {
        return r;
    }
    let n: usize = c as usize + 1;
    let mut level: usize = 0;
    while level < n
        invariant
            level <= n,
            n == c + 1,
            mdd1@.len() > 0,
            mdd2@.len() > 0,
            m1 == mdd_view(mdd1@),
            m2 == mdd_view(mdd2@),
            forall|k: int| 0 <= k < mdd1@.len() ==> (#[trigger] mdd1@[k])@.no_duplicates(),
            forall|k: int| 0 <= k < mdd2@.len() ==> (#[trigger] mdd2@[k])@.no_duplicates(),
            forall|k: int| 0 <= k < r@.len() ==> (#[trigger] r@[k])@.no_duplicates(),
            r@.len() == level,
            forall|k: int, pair: (Cell, Cell)| 0 <= k < level ==> (#[trigger] r@[k]@.contains(pair) <==> in_joint(m1, m2, k, pair)),
        decreases n - level,
    {
        let l1 = layer_of(mdd1, level);
        let l2 = layer_of(mdd2, level);
        proof {
            let k1: int = if level < mdd1@.len() { level as int } else { mdd1@.len() - 1 };
            let k2: int = if level < mdd2@.len() { level as int } else { mdd2@.len() - 1 };
            assert(l1@ == mdd1@[k1]@);
            assert(l2@ == mdd2@[k2]@);
        }
        let mut joint: Vec<(Cell, Cell)> = Vec::new();
        let mut i: usize = 0;
        while i < l1.len()
            invariant
                i <= l1@.len(),
                level < n,
                l1@ == layer_at(m1, level as int),
                l2@ == layer_at(m2, level as int),
                l1@.no_duplicates(),
                l2@.no_duplicates(),
                joint@.no_duplicates(),
                forall|k: int| 0 <= k < r@.len() ==> (#[trigger] r@[k])@.no_duplicates(),
                r@.len() == level,
                forall|k: int, pair: (Cell, Cell)| 0 <= k < level ==> (#[trigger] r@[k]@.contains(pair) <==> in_joint(m1, m2, k, pair)),
                forall|pair: (Cell, Cell)| #[trigger] joint@.contains(pair) <==> in_joint(m1, m2, level as int, pair)
                    && l1@.take(i as int).contains(pair.0),
            decreases l1@.len() - i,
        {
            let mut j: usize = 0;
            while j < l2.len()
                invariant
                    i < l1@.len(),
                    j <= l2@.len(),
                    level < n,
                    l1@ == layer_at(m1, level as int),
                    l2@ == layer_at(m2, level as int),
                    l1@.no_duplicates(),
                    l2@.no_duplicates(),
                    joint@.no_duplicates(),
                    forall|k: int| 0 <= k < r@.len() ==> (#[trigger] r@[k])@.no_duplicates(),
                    r@.len() == level,
                    forall|k: int, pair: (Cell, Cell)| 0 <= k < level ==> (#[trigger] r@[k]@.contains(pair) <==> in_joint(m1, m2, k, pair)),
                    forall|pair: (Cell, Cell)| #[trigger] joint@.contains(pair) <==> in_joint(m1, m2, level as int, pair)
                        && (l1@.take(i as int).contains(pair.0) || (pair.0 == l1@[i as int] && l2@.take(j as int).contains(pair.1))),
                decreases l2@.len() - j,
            {
                let u = l1[i];
                let v = l2[j];
                let swapped = if level == 0 {
                    false
                } else {
                    contains_pair(&r[level - 1], (v, u))
                };
                let ghost before = joint@;
                proof {
                    if before.contains((u, v)) {
                        if l1@.take(i as int).contains(u) {
                            let x = choose|x: int| 0 <= x < i && l1@.take(i as int)[x] == u;
                            assert(l1@[x] == l1@[i as int]);
                        } else {
                            let x = choose|x: int| 0 <= x < j && l2@.take(j as int)[x] == v;
                            assert(l2@[x] == l2@[j as int]);
                        }
                    }
                }
                if !crate::grid::same_cell(u, v) && !swapped {
                    joint.push((u, v));
                }
                proof {
                    assert(l2@.take(j + 1) =~= l2@.take(j as int).push(v));
                    assert forall|a: int, b: int| 0 <= a < b < joint@.len() implies joint@[a] != joint@[b] by {
                        if b == joint@.len() - 1 && joint@.len() > before.len() {
                            assert(before.contains(before[a]));
                        }
                    }
                    assert forall|x: Cell| #[trigger] l2@.take(j + 1).contains(x) <==> l2@.take(j as int).contains(x) || x == v by {
                        let ta = l2@.take(j + 1);
                        let tb = l2@.take(j as int);
                        if ta.contains(x) && x != v {
                            let y = choose|y: int| 0 <= y < ta.len() && ta[y] == x;
                            assert(tb[y] == x);
                        }
                        if tb.contains(x) {
                            let y = choose|y: int| 0 <= y < tb.len() && tb[y] == x;
                            assert(ta[y] == x);
                        }
                        if x == v {
                            assert(l2@.take(j + 1)[j as int] == x);
                        }
                    }
                    assert(l1@.contains(u));
                    assert(l2@.contains(v));
                    if level > 0 {
                        assert(r@[level - 1]@.contains((v, u)) == in_joint(m1, m2, level - 1, (v, u)));
                    }
                    assert forall|pair: (Cell, Cell)| #[trigger] joint@.contains(pair) <==> in_joint(m1, m2, level as int, pair)
                        && (l1@.take(i as int).contains(pair.0) || (pair.0 == l1@[i as int] && l2@.take(j + 1).contains(pair.1))) by {
                        if before.contains(pair) {
                            let x = choose|x: int| 0 <= x < before.len() && before[x] == pair;
                            assert(joint@[x] == pair);
                        }
                        if joint@.contains(pair) && !before.contains(pair) {
                            let x = choose|x: int| 0 <= x < joint@.len() && joint@[x] == pair;
                            assert(x >= before.len());
                        }
                        if pair == (u, v) && in_joint(m1, m2, level as int, pair) {
                            assert(joint@[joint@.len() - 1] == pair);
                        }
                    }
                }
                j += 1;
            }
            proof {
                let t1 = l1@.take(i + 1);
                assert(t1 =~= l1@.take(i as int).push(l1@[i as int]));
                assert(l2@.take(l2@.len() as int) =~= l2@);
                assert forall|x: Cell| #[trigger] t1.contains(x) <==> l1@.take(i as int).contains(x) || x == l1@[i as int] by {
                    let t0 = l1@.take(i as int);
                    if t1.contains(x) && x != l1@[i as int] {
                        let y = choose|y: int| 0 <= y < t1.len() && t1[y] == x;
                        assert(t0[y] == x);
                    }
                    if t0.contains(x) {
                        let y = choose|y: int| 0 <= y < t0.len() && t0[y] == x;
                        assert(t1[y] == x);
                    }
                    if x == l1@[i as int] {
                        assert(t1[i as int] == x);
                    }
                }
                assert forall|pair: (Cell, Cell)| #[trigger] joint@.contains(pair) <==> in_joint(m1, m2, level as int, pair)
                    && t1.contains(pair.0) by {
                    if in_joint(m1, m2, level as int, pair) {
                        assert(l2@.contains(pair.1));
                    }
                }
            }
            i += 1;
        }
        proof {
            assert(l1@.take(l1@.len() as int) =~= l1@);
        }
        r.push(joint);
        proof {
            assert forall|k: int| 0 <= k < r@.len() implies (#[trigger] r@[k])@.no_duplicates() by {
                if k == level {
                    assert(r@[k] == joint);
                }
            }
            assert forall|k: int, pair: (Cell, Cell)| 0 <= k < level + 1 implies (#[trigger] r@[k]@.contains(pair) <==> in_joint(m1, m2, k, pair)) by {
                if k == level {
                    assert(r@[k] == joint);
                }
            }
        }
        level += 1;
    }
    r
}

/// The agents depend on each other: the last joint layer lacks the pair of their goals,
/// or some joint layer is empty.
pub fn is_joint_mdd_empty(joint_mdd: &Vec<Vec<(Cell, Cell)>>, goal: Cell, other_goal: Cell) -> (r: bool)
    requires
        joint_mdd@.len() > 0,
    ensures
        r == (!joint_mdd@.last()@.contains((goal, other_goal)) || exists|k: int|
            0 <= k < joint_mdd@.len() && (#[trigger] joint_mdd@[k])@.len() == 0),
{
    if !contains_pair(&joint_mdd[joint_mdd.len() - 1], (goal, other_goal)) {
        return true;
    }
    let mut k: usize = 0;
    while k < joint_mdd.len()
        invariant
            k <= joint_mdd@.len(),
            forall|j: int| 0 <= j < k ==> (#[trigger] joint_mdd@[j])@.len() != 0,
        decreases joint_mdd@.len() - k,
    {
        if joint_mdd[k].len() == 0 {
            return true;
        }
        k += 1;
    }
    false
}


/// A walk from the start that stands on `cell` after `k` steps.
pub proof fn lemma_prefix_walk(grid: GridModel, start: LocationTime, k: nat, cell: Cell) -> (p: Seq<Cell>)
    requires
        reachable(grid, start, k, cell),
    ensures
        p.len() == k + 1,
        p[0] == start.location,
        p[k as int] == cell,
        crate::low_level::valid_walk(grid, p, start.time as int),
    decreases k,
{
    if k == 0 {
        seq![cell]
    } else {
        let m = choose|m: int|
            0 <= m < 5 && reachable(grid, start, (k - 1) as nat, #[trigger] crate::low_level::pred(cell, m))
                && grid.valid_step(crate::low_level::pred(cell, m), cell, start.time + k);
        let q = lemma_prefix_walk(grid, start, (k - 1) as nat, crate::low_level::pred(cell, m));
        let p = q.push(cell);
        assert forall|i: int| 1 <= i < p.len() implies #[trigger] grid.valid_step(p[i - 1], p[i], start.time + i) by {
            if i < k {
                assert(grid.valid_step(q[i - 1], q[i], start.time + i));
            }
        }
        p
    }
}

/// A walk from `cell` at time `k` that stands on the goal at time `c`.
pub proof fn lemma_suffix_walk(grid: GridModel, goal: Cell, c: int, k: int, cell: Cell) -> (p: Seq<Cell>)
    requires
        coreachable(grid, goal, c, k, cell),
        k <= c,
    ensures
        p.len() == c - k + 1,
        p[0] == cell,
        p.last() == goal,
        forall|i: int| 1 <= i < p.len() ==> #[trigger] grid.valid_step(p[i - 1], p[i], k + i),
    decreases c - k,
{
    if k >= c {
        seq![cell]
    } else {
        let m = choose|m: int|
            0 <= m < 5 && grid.valid_step(cell, #[trigger] succ(cell, m), k + 1) && coreachable(grid, goal, c, k + 1, succ(cell, m));
        let q = lemma_suffix_walk(grid, goal, c, k + 1, succ(cell, m));
        let p = seq![cell] + q;
        assert forall|i: int| 1 <= i < p.len() implies #[trigger] grid.valid_step(p[i - 1], p[i], k + i) by {
            if i >= 2 {
                let j = i - 1;
                assert(grid.valid_step(q[j - 1], q[j], (k + 1) + j));
                assert(p[i - 1] == q[j - 1]);
                assert(p[i] == q[j]);
            }
        }
        p
    }
}

/// Each cell of a walk that ends on the goal at time `c` can reach the goal by then.
pub proof fn lemma_walk_coreachable(grid: GridModel, goal: Cell, p: Seq<Cell>, c: int, k: int)
    requires
        p.len() == c + 1,
        p.last() == goal,
        crate::low_level::valid_walk(grid, p, 0),
        0 <= k <= c,
    ensures
        coreachable(grid, goal, c, k, p[k]),
    decreases c - k,
{
    if k < c {
        lemma_walk_coreachable(grid, goal, p, c, k + 1);
        let i = k + 1;
        assert(grid.valid_step(p[i - 1], p[i], 0 + i));
        let a = p[k];
        let b = p[k + 1];
        assert(grid.valid_step(a, b, k + 1));
        let m: int = if b == a {
            0
        } else if b.0 == a.0 && b.1 == a.1 + 1 {
            1
        } else if b.0 == a.0 + 1 {
            2
        } else if b.0 == a.0 {
            3
        } else {
            4
        };
        assert(succ(a, m) == b);
    }
}

/// The layers of an MDD are what they claim: every cell of layer `k` lies at time `k` on
/// some legal walk of exactly `c` steps from the agent's start to its goal; the first
/// layer is the start alone and the last the goal alone.
pub proof fn lemma_mdd_layers(grid: GridModel, agent: Agent, c: int, k: int, cell: Cell)
    requires
        has_path(grid, agent, c),
        0 <= k <= c,
    ensures
        in_layer(grid, agent, c, k, cell) ==> exists|p: Seq<Cell>|
            {
                &&& p.len() == c + 1
                &&& p[0] == agent.start
                &&& p[c] == agent.goal
                &&& #[trigger] p[k] == cell
                &&& crate::low_level::valid_walk(grid, p, 0)
            },
        in_layer(grid, agent, c, 0, cell) <==> cell == agent.start,
        in_layer(grid, agent, c, c, cell) <==> cell == agent.goal,
{
    let start = start_at_zero(agent);
    if in_layer(grid, agent, c, k, cell) {
        let pre = lemma_prefix_walk(grid, start, k as nat, cell);
        let suf = lemma_suffix_walk(grid, agent.goal, c, k, cell);
        let p = pre + suf.drop_first();
        assert forall|i: int| 1 <= i < p.len() implies #[trigger] grid.valid_step(p[i - 1], p[i], 0 + i) by {
            if i <= k {
                assert(grid.valid_step(pre[i - 1], pre[i], start.time + i));
            } else {
                let j = i - k;
                assert(grid.valid_step(suf[j - 1], suf[j], k + j));
                if i - 1 == k {
                    assert(p[i - 1] == pre[k]);
                } else {
                    assert(p[i - 1] == suf[j - 1]);
                }
                assert(p[i] == suf[j]);
            }
        }
        assert(p[c] == suf.last());
        assert(p[k] == cell);
    }
    let whole = lemma_prefix_walk(grid, start, c as nat, agent.goal);
    assert(whole.last() == whole[c]);
    lemma_walk_coreachable(grid, agent.goal, whole, c, 0);
    if c > 0 {
        crate::low_level::lemma_reachable_in_bounds(grid, start, c as nat, agent.goal);
    }
}

} // verus!
