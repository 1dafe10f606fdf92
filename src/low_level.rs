//! The low level: a shortest path for one agent through the time-expanded grid.
use vstd::prelude::*;
use crate::grid::{Cell, Grid, GridModel, LocationTime, Obstacles, Entry, adjacent_or_same, entries};

verus! {

/// Horizontal part of move `m`: `(0,0)`, `(0,1)`, `(1,0)`, `(0,-1)`, `(-1,0)` for `m` in `0..5`.
pub open spec fn move_dx(m: int) -> int {
    if m == 2 {
        1
    } else if m == 4 {
        -1
    } else {
        0
    }
}

/// Vertical part of move `m`.
pub open spec fn move_dy(m: int) -> int {
    if m == 1 {
        1
    } else if m == 3 {
        -1
    } else {
        0
    }
}

/// The cell from which move `m` leads to `c`.
pub open spec fn pred(c: Cell, m: int) -> Cell {
    ((c.0 - move_dx(m)) as i32, (c.1 - move_dy(m)) as i32)
}

/// Whether an agent that stands on `start.location` at time `start.time` can stand on `c`
/// after `k` steps.
pub open spec fn reachable(grid: GridModel, start: LocationTime, k: nat, c: Cell) -> bool
    decreases k,
{
    if k == 0 {
        c == start.location
    } else {
        exists|m: int|
            0 <= m < 5 && reachable(grid, start, (k - 1) as nat, #[trigger] pred(c, m))
                && grid.valid_step(pred(c, m), c, start.time + k)
    }
}

/// Every step of `p`, the walk that stands on `p[0]` at time `t0`, is legal on `grid`.
pub open spec fn valid_walk(grid: GridModel, p: Seq<Cell>, t0: int) -> bool {
    forall|i: int| 1 <= i < p.len() ==> #[trigger] grid.valid_step(p[i - 1], p[i], t0 + i)
}

/// The cells of a timed path.
pub open spec fn locations(s: Seq<LocationTime>) -> Seq<Cell> {
    Seq::new(s.len(), |i: int| s[i].location)
}

/// A walk from `start` to the goal of `grid` that ends after the goal's last
/// unconditional obstacle.
pub open spec fn reaches_goal(grid: GridModel, start: LocationTime, p: Seq<Cell>) -> bool {
    &&& p.len() >= 1
    &&& p[0] == start.location
    &&& p.last() == grid.goal
    &&& start.time + p.len() - 1 > grid.latest_goal_obstacle_time()
    &&& valid_walk(grid, p, start.time as int)
}

/// The latest time of any entry of `obs`, and `-1` when there is none.
pub open spec fn max_obstacle_time(obs: Seq<Entry>) -> int
    decreases obs.len(),
{
    if obs.len() == 0 {
        -1
    } else {
        let rest = max_obstacle_time(obs.drop_last());
        if obs.last().0.time > rest {
            obs.last().0.time as int
        } else {
            rest
        }
    }
}

/// How many steps the search looks ahead: past the last dynamic obstacle, as many steps
/// as the grid has cells, and never beyond the largest time.
pub open spec fn horizon(grid: GridModel, t0: int) -> int {
    let mt = max_obstacle_time(grid.obstacles);
    let free = (if mt > t0 { mt - t0 } else { 0 }) + 1 + grid.width * grid.height;
    if free < i32::MAX - t0 {
        free
    } else {
        i32::MAX - t0
    }
}

/// A `w` by `h` table.
pub open spec fn shaped<T>(v: Seq<Vec<T>>, w: int, h: int) -> bool {
    v.len() == w && forall|x: int| 0 <= x < w ==> (#[trigger] v[x])@.len() == h
}

pub proof fn lemma_reachable_in_bounds(grid: GridModel, start: LocationTime, k: nat, c: Cell)
    requires
        reachable(grid, start, k, c),
        grid.in_bounds(start.location),
    ensures
        grid.in_bounds(c),
{
    if k > 0 {
        let m = choose|m: int|
            0 <= m < 5 && reachable(grid, start, (k - 1) as nat, #[trigger] pred(c, m))
                && grid.valid_step(pred(c, m), c, start.time + k);
    }
}

/// Each cell of a legal walk from `start` is reachable after as many steps as its index.
pub proof fn lemma_walk_reachable(grid: GridModel, start: LocationTime, p: Seq<Cell>, i: int)
    requires
        p.len() >= 1,
        p[0] == start.location,
        valid_walk(grid, p, start.time as int),
        0 <= i < p.len(),
    ensures
        reachable(grid, start, i as nat, p[i]),
    decreases i,
{
    if i > 0 {
        lemma_walk_reachable(grid, start, p, i - 1);
        assert(grid.valid_step(p[i - 1], p[i], start.time + i));
        let c = p[i];
        let q = p[i - 1];
        let m: int = if q == c {
            0
        } else if q.0 == c.0 && q.1 + 1 == c.1 {
            1
        } else if q.0 + 1 == c.0 {
            2
        } else if q.0 == c.0 {
            3
        } else {
            4
        };
        assert(pred(c, m) == q);
    }
}


/// No entry is later than the latest time of all entries.
pub proof fn lemma_entry_time_le(obs: Seq<Entry>, k: int)
    requires
        0 <= k < obs.len(),
    ensures
        obs[k].0.time <= max_obstacle_time(obs),
    decreases obs.len(),
{
    if k < obs.len() - 1 {
        lemma_entry_time_le(obs.drop_last(), k);
    }
}

/// The latest unconditional time at a goal is no later than the latest time of all entries.
pub proof fn lemma_latest_le_max(obs: Seq<Entry>, goal: Cell)
    ensures
        crate::grid::latest_unconditional(obs, goal) <= max_obstacle_time(obs) || crate::grid::latest_unconditional(obs, goal)
            == i32::MIN,
    decreases obs.len(),
{
    if obs.len() > 0 {
        lemma_latest_le_max(obs.drop_last(), goal);
    }
}

/// After the last entry's time the grid no longer changes.
pub proof fn lemma_static_step(grid: GridModel, a: Cell, b: Cell, t1: int, t2: int)
    requires
        grid.valid_step(a, b, t1),
        t1 > max_obstacle_time(grid.obstacles),
        t2 > max_obstacle_time(grid.obstacles),
        t2 <= i32::MAX,
    ensures
        grid.valid_step(a, b, t2),
{
    let lt = LocationTime { location: b, time: t2 as i32 };
    if crate::grid::blocked(grid.obstacles, lt, a) {
        let k = choose|k: int| 0 <= k < grid.obstacles.len() && #[trigger] crate::grid::triggers(grid.obstacles[k], lt, a);
        lemma_entry_time_le(grid.obstacles, k);
    }
    let lt1 = LocationTime { location: b, time: t1 as i32 };
    assert(max_obstacle_time(grid.obstacles) >= -1) by {
        lemma_max_floor(grid.obstacles);
    }
}

proof fn lemma_max_floor(obs: Seq<Entry>)
    ensures
        max_obstacle_time(obs) >= -1,
    decreases obs.len(),
{
    if obs.len() > 0 {
        lemma_max_floor(obs.drop_last());
    }
}

/// More than `w * h` cells on a `w` by `h` grid repeat one.
pub proof fn lemma_pigeonhole(s: Seq<Cell>, w: int, h: int)
    requires
        w > 0,
        h > 0,
        forall|i: int| 0 <= i < s.len() ==> 0 <= (#[trigger] s[i]).0 < w && 0 <= s[i].1 < h,
        s.len() > w * h,
    ensures
        exists|i: int, j: int| 0 <= i < j < s.len() && #[trigger] s[i] == #[trigger] s[j],
{
    if !(exists|i: int, j: int| 0 <= i < j < s.len() && #[trigger] s[i] == #[trigger] s[j]) {
        let codes = s.map_values(|c: Cell| c.0 * h + c.1);
        assert forall|i: int, j: int| 0 <= i < j < codes.len() implies codes[i] != codes[j] by {
            let (x1, y1, x2, y2) = (s[i].0 as int, s[i].1 as int, s[j].0 as int, s[j].1 as int);
            if codes[i] == codes[j] {
                assert(x1 == x2 && y1 == y2) by (nonlinear_arith)
                    requires
                        x1 * h + y1 == x2 * h + y2,
                        0 <= y1 < h,
                        0 <= y2 < h,
                        h > 0,
                ;
                assert(s[i] == s[j]);
            }
        }
        codes.unique_seq_to_set();
        vstd::set_lib::lemma_int_range(0, w * h);
        assert forall|c: int| codes.to_set().contains(c) implies vstd::set_lib::set_int_range(0, w * h).contains(c) by {
            let i = choose|i: int| 0 <= i < codes.len() && codes[i] == c;
            let (x, y) = (s[i].0 as int, s[i].1 as int);
            assert(0 <= x * h + y < w * h) by (nonlinear_arith)
                requires
                    0 <= x < w,
                    0 <= y < h,
            ;
        }
        vstd::set_lib::lemma_len_subset(codes.to_set(), vstd::set_lib::set_int_range(0, w * h));
    }
}

/// A walk to the goal can be cut down, by leaving out loops after the last entry's time,
/// to one that takes at most as many steps as that time leaves plus the grid's cells.
pub proof fn lemma_shorten(grid: GridModel, start: LocationTime, p: Seq<Cell>) -> (r: Seq<Cell>)
    requires
        reaches_goal(grid, start, p),
        grid.width > 0,
        grid.height > 0,
    ensures
        reaches_goal(grid, start, r),
        r.len() - 1 <= (if max_obstacle_time(grid.obstacles) > start.time {
            max_obstacle_time(grid.obstacles) - start.time
        } else {
            0
        }) + grid.width * grid.height,
    decreases p.len(),
{
    let mt = max_obstacle_time(grid.obstacles);
    let t0 = start.time as int;
    let kk: int = if mt > t0 { mt - t0 } else { 0 };
    let wh = grid.width * grid.height;
    if p.len() - 1 <= kk + wh {
        p
    } else {
        let s = p.subrange(kk + 1, p.len() as int);
        assert forall|i: int| 0 <= i < s.len() implies 0 <= (#[trigger] s[i]).0 < grid.width && 0 <= s[i].1 < grid.height by {
            let k = kk + 1 + i;
            assert(grid.valid_step(p[k - 1], p[k], t0 + k));
        }
        lemma_pigeonhole(s, grid.width, grid.height);
        let (i, j) = choose|i: int, j: int| 0 <= i < j < s.len() && #[trigger] s[i] == #[trigger] s[j];
        let a = kk + 1 + i;
        let b = kk + 1 + j;
        assert(p[a] == p[b]);
        let q = p.take(a + 1) + p.skip(b + 1);
        lemma_latest_le_max(grid.obstacles, grid.goal);
        let last = p.len() - 1;
        assert(grid.valid_step(p[last - 1], p[last], t0 + last));
        assert forall|k: int| 1 <= k < q.len() implies #[trigger] grid.valid_step(q[k - 1], q[k], t0 + k) by {
            if k <= a {
                assert(q[k - 1] == p[k - 1] && q[k] == p[k]);
            } else {
                let m = k + (b - a);
                assert(q[k] == p[m]);
                if k == a + 1 {
                    assert(q[k - 1] == p[a]);
                } else {
                    assert(q[k - 1] == p[m - 1]);
                }
                assert(grid.valid_step(p[m - 1], p[m], t0 + m));
                lemma_static_step(grid, p[m - 1], p[m], t0 + m, t0 + k);
            }
        }
        assert(q.last() == grid.goal) by {
            if b == p.len() - 1 {
                assert(q.last() == p[a]);
            } else {
                assert(q.last() == p.last());
            }
        }
        assert(q[0] == p[0]);
        lemma_shorten(grid, start, q)
    }
}

/// When no walk to the goal fits in the horizon, there is none at all.
pub proof fn lemma_none_means_no_walk(grid: GridModel, start: LocationTime)
    requires
        grid.in_bounds(start.location),
        0 <= start.time <= i32::MAX,
        forall|q: Seq<Cell>| reaches_goal(grid, start, q) ==> q.len() - 1 > horizon(grid, start.time as int),
    ensures
        forall|q: Seq<Cell>| !#[trigger] reaches_goal(grid, start, q),
{
    assert forall|q: Seq<Cell>| !#[trigger] reaches_goal(grid, start, q) by {
        if reaches_goal(grid, start, q) {
            let r = lemma_shorten(grid, start, q);
            if r.len() >= 2 {
                let last = r.len() - 1;
                assert(grid.valid_step(r[last - 1], r[last], start.time + last));
            }
            assert(r.len() - 1 > horizon(grid, start.time as int));
        }
    }
}

/// A new `w` by `h` table filled with `v`.
pub(crate) fn table<T: Copy>(w: usize, h: usize, v: T) -> (r: Vec<Vec<T>>)
    ensures
        shaped(r@, w as int, h as int),
        forall|x: int, y: int| 0 <= x < w && 0 <= y < h ==> r@[x]@[y] == v,
{
    let mut r: Vec<Vec<T>> = Vec::new();
    let mut x: usize = 0;
    while x < w
        invariant
            x <= w,
            r@.len() == x,
            forall|i: int| 0 <= i < x ==> (#[trigger] r@[i])@.len() == h,
            forall|i: int, y: int| 0 <= i < x && 0 <= y < h ==> r@[i]@[y] == v,
        decreases w - x,
    {
        let mut col: Vec<T> = Vec::new();
        let mut y: usize = 0;
        while y < h
            invariant
                y <= h,
                col@.len() == y,
                forall|j: int| 0 <= j < y ==> col@[j] == v,
            decreases h - y,
        {
            col.push(v);
            y += 1;
        }
        r.push(col);
        x += 1;
    }
    r
}

/// Whether the conflict avoidance table holds `lt`.
pub(crate) fn in_table(table: &Vec<LocationTime>, lt: &LocationTime) -> (r: bool)
    ensures
        r == table@.contains(*lt),
{
    let mut i: usize = 0;
    while i < table.len()
        invariant
            i <= table@.len(),
            forall|k: int| 0 <= k < i ==> table@[k] != *lt,
        decreases table@.len() - i,
    {
        if table[i] == *lt {
            return true;
        }
        i += 1;
    }
    false
}

/// The latest time of any obstacle entry.
fn max_time(obs: &Obstacles) -> (r: i32)
    ensures
        r == max_obstacle_time(entries(obs@)),
{
    let mut r: i32 = -1;
    let mut i: usize = 0;
    while i < obs.len()
        invariant
            i <= obs@.len(),
            r == max_obstacle_time(entries(obs@.take(i as int))),
        decreases obs@.len() - i,
    {
        proof {
            assert(entries(obs@.take(i + 1)).drop_last() =~= entries(obs@.take(i as int)));
        }
        if obs[i].0.time > r {
            r = obs[i].0.time;
        }
        i += 1;
    }
    proof {
        assert(obs@.take(i as int) =~= obs@);
    }
    r
}

/// The best move into `(x, y)` at step `k + 1`, given whether each cell is reachable
/// after `k` steps and the number of table hits on the cheapest way there.
fn best_move(
    grid: &Grid,
    start: LocationTime,
    k: usize,
    cur: &Vec<Vec<bool>>,
    cost: &Vec<Vec<u64>>,
    x: i32,
    y: i32,
    hit: bool,
) -> (r: Option<(u8, u64)>)
    requires
        grid@.in_bounds(start.location),
        grid@.in_bounds((x, y)),
        start.time + k + 1 <= i32::MAX,
        0 <= start.time,
        shaped(cur@, grid.width as int, grid.height as int),
        shaped(cost@, grid.width as int, grid.height as int),
        forall|a: int, b: int|
            0 <= a < grid.width && 0 <= b < grid.height ==> cur@[a]@[b] == reachable(
                grid@,
                start,
                k as nat,
                (a as i32, b as i32),
            ),
        forall|a: int, b: int| 0 <= a < grid.width && 0 <= b < grid.height ==> cost@[a]@[b] <= k,
    ensures
        r.is_some() == reachable(grid@, start, (k + 1) as nat, (x, y)),
        r matches Some((m, c)) ==> m < 5 && c <= k + 1 && reachable(grid@, start, k as nat, pred((x, y), m as int))
            && grid@.valid_step(pred((x, y), m as int), (x, y), start.time + k + 1),
{
    let t: i32 = start.time + k as i32 + 1;
    let lt = LocationTime { location: (x, y), time: t };
    let mut best: Option<(u8, u64)> = None;
    let mut m: u8 = 0;
    while m < 5
        invariant
            m <= 5,
            lt == (LocationTime { location: (x, y), time: t }),
            t == start.time + k + 1,
            grid@.in_bounds((x, y)),
            grid@.in_bounds(start.location),
            shaped(cur@, grid.width as int, grid.height as int),
            shaped(cost@, grid.width as int, grid.height as int),
            forall|a: int, b: int|
                0 <= a < grid.width && 0 <= b < grid.height ==> cur@[a]@[b] == reachable(
                    grid@,
                    start,
                    k as nat,
                    (a as i32, b as i32),
                ),
            forall|a: int, b: int| 0 <= a < grid.width && 0 <= b < grid.height ==> cost@[a]@[b] <= k,
            best.is_some() == exists|j: int|
                0 <= j < m && reachable(grid@, start, k as nat, #[trigger] pred((x, y), j))
                    && grid@.valid_step(pred((x, y), j), (x, y), start.time + k + 1),
            best matches Some((bm, bc)) ==> bm < m && bc <= k + 1 && reachable(grid@, start, k as nat, pred((x, y), bm as int))
                && grid@.valid_step(pred((x, y), bm as int), (x, y), start.time + k + 1),
        decreases 5 - m,
    {
        let px: i32 = if m == 2 {
            x - 1
        } else if m == 4 {
            x + 1
        } else {
            x
        };
        let py: i32 = if m == 1 {
            y - 1
        } else if m == 3 {
            y + 1
        } else {
            y
        };
        assert(pred((x, y), m as int) == (px, py));
        let inb = 0 <= px && px < grid.width && 0 <= py && py < grid.height;
        if !inb {
            proof {
                if reachable(grid@, start, k as nat, (px, py)) {
                    lemma_reachable_in_bounds(grid@, start, k as nat, (px, py));
                }
            }
        }
        if inb && cur[px as usize][py as usize] && grid.is_valid_location_time(&lt, &(px, py)) {
            assert(adjacent_or_same((px, py), (x, y)));
            let c: u64 = cost[px as usize][py as usize] + if hit {
                1
            } else {
                0
            };
            match best {
                Some((_, bc)) => {
                    if c < bc {
                        best = Some((m, c));
                    }
                },
                None => {
                    best = Some((m, c));
                },
            }
        }
        proof {
            assert forall|j: int|
                0 <= j < m + 1 && reachable(grid@, start, k as nat, #[trigger] pred((x, y), j))
                    && grid@.valid_step(pred((x, y), j), (x, y), start.time + k + 1) implies best.is_some() by {
                if j == m {
                    assert(pred((x, y), j) == (px, py));
                    if !inb {
                        lemma_reachable_in_bounds(grid@, start, k as nat, (px, py));
                    }
                }
            }
        }
        m += 1;
    }
    best
}


/// The cells reachable after `k + 1` steps, the fewest table hits on a way to each, and
/// the move by which each is entered.
pub(crate) fn next_layer(
    grid: &Grid,
    start: LocationTime,
    k: usize,
    cur: &Vec<Vec<bool>>,
    cost: &Vec<Vec<u64>>,
    conflict_avoidance_table: &Vec<LocationTime>,
) -> (r: (Vec<Vec<bool>>, Vec<Vec<u64>>, Vec<Vec<u8>>))
    requires
        grid@.in_bounds(start.location),
        start.time + k + 1 <= i32::MAX,
        0 <= start.time,
        shaped(cur@, grid.width as int, grid.height as int),
        shaped(cost@, grid.width as int, grid.height as int),
        forall|a: int, b: int|
            0 <= a < grid.width && 0 <= b < grid.height ==> cur@[a]@[b] == reachable(
                grid@,
                start,
                k as nat,
                (a as i32, b as i32),
            ),
        forall|a: int, b: int| 0 <= a < grid.width && 0 <= b < grid.height ==> cost@[a]@[b] <= k,
    ensures
        shaped(r.0@, grid.width as int, grid.height as int),
        shaped(r.1@, grid.width as int, grid.height as int),
        shaped(r.2@, grid.width as int, grid.height as int),
        forall|a: int, b: int|
            0 <= a < grid.width && 0 <= b < grid.height ==> r.0@[a]@[b] == reachable(
                grid@,
                start,
                (k + 1) as nat,
                (a as i32, b as i32),
            ),
        forall|a: int, b: int| 0 <= a < grid.width && 0 <= b < grid.height ==> r.1@[a]@[b] <= k + 1,
        forall|a: int, b: int|
            0 <= a < grid.width && 0 <= b < grid.height && reachable(grid@, start, (k + 1) as nat, (a as i32, b as i32))
                ==> parent_ok(grid@, start, (k + 1) as nat, (a as i32, b as i32), r.2@[a]@[b] as int),
{
    let t: i32 = start.time + k as i32 + 1;
    let mut next: Vec<Vec<bool>> = Vec::new();
    let mut ncost: Vec<Vec<u64>> = Vec::new();
    let mut par: Vec<Vec<u8>> = Vec::new();
    let mut x: i32 = 0;
    while x < grid.width
        invariant
            0 <= x <= grid.width,
            t == start.time + k + 1,
            grid@.in_bounds(start.location),
            start.time + k + 1 <= i32::MAX,
            0 <= start.time,
            shaped(cur@, grid.width as int, grid.height as int),
            shaped(cost@, grid.width as int, grid.height as int),
            forall|a: int, b: int|
                0 <= a < grid.width && 0 <= b < grid.height ==> cur@[a]@[b] == reachable(
                    grid@,
                    start,
                    k as nat,
                    (a as i32, b as i32),
                ),
            forall|a: int, b: int| 0 <= a < grid.width && 0 <= b < grid.height ==> cost@[a]@[b] <= k,
            shaped(next@, x as int, grid.height as int),
            shaped(ncost@, x as int, grid.height as int),
            shaped(par@, x as int, grid.height as int),
            forall|a: int, b: int|
                0 <= a < x && 0 <= b < grid.height ==> next@[a]@[b] == reachable(
                    grid@,
                    start,
                    (k + 1) as nat,
                    (a as i32, b as i32),
                ),
            forall|a: int, b: int| 0 <= a < x && 0 <= b < grid.height ==> ncost@[a]@[b] <= k + 1,
            forall|a: int, b: int|
                0 <= a < x && 0 <= b < grid.height && reachable(grid@, start, (k + 1) as nat, (a as i32, b as i32))
                    ==> parent_ok(grid@, start, (k + 1) as nat, (a as i32, b as i32), par@[a]@[b] as int),
        decreases grid.width - x,
    {
        let mut ncol: Vec<bool> = Vec::new();
        let mut ccol: Vec<u64> = Vec::new();
        let mut pcol: Vec<u8> = Vec::new();
        let mut y: i32 = 0;
        while y < grid.height
            invariant
                0 <= x < grid.width,
                0 <= y <= grid.height,
                t == start.time + k + 1,
                grid@.in_bounds(start.location),
                start.time + k + 1 <= i32::MAX,
                0 <= start.time,
                shaped(cur@, grid.width as int, grid.height as int),
                shaped(cost@, grid.width as int, grid.height as int),
                forall|a: int, b: int|
                    0 <= a < grid.width && 0 <= b < grid.height ==> cur@[a]@[b] == reachable(
                        grid@,
                        start,
                        k as nat,
                        (a as i32, b as i32),
                    ),
                forall|a: int, b: int| 0 <= a < grid.width && 0 <= b < grid.height ==> cost@[a]@[b] <= k,
                ncol@.len() == y,
                ccol@.len() == y,
                pcol@.len() == y,
                forall|b: int| 0 <= b < y ==> ncol@[b] == reachable(grid@, start, (k + 1) as nat, (x, b as i32)),
                forall|b: int| 0 <= b < y ==> ccol@[b] <= k + 1,
                forall|b: int|
                    0 <= b < y && reachable(grid@, start, (k + 1) as nat, (x, b as i32))
                        ==> parent_ok(grid@, start, (k + 1) as nat, (x, b as i32), pcol@[b] as int),
            decreases grid.height - y,
        {
            let hit = in_table(conflict_avoidance_table, &LocationTime { location: (x, y), time: t });
            match best_move(grid, start, k, cur, cost, x, y, hit) {
                Some((m, c)) => {
                    ncol.push(true);
                    ccol.push(c);
                    pcol.push(m);
                },
                None => {
                    ncol.push(false);
                    ccol.push(0);
                    pcol.push(5);
                },
            }
            y += 1;
        }
        next.push(ncol);
        ncost.push(ccol);
        par.push(pcol);
        proof {
            assert forall|a: int, b: int|
                0 <= a < x + 1 && 0 <= b < grid.height && reachable(grid@, start, (k + 1) as nat, (a as i32, b as i32))
                    implies parent_ok(grid@, start, (k + 1) as nat, (a as i32, b as i32), par@[a]@[b] as int) by {
                if a == x {
                    assert(par@[a] == pcol);
                }
            }
        }
        x += 1;
    }
    (next, ncost, par)
}

/// Move `m` enters `c` after `k` steps from a cell reachable after `k - 1` steps.
pub open spec fn parent_ok(grid: GridModel, start: LocationTime, k: nat, c: Cell, m: int) -> bool {
    &&& 0 <= m < 5
    &&& k >= 1
    &&& reachable(grid, start, (k - 1) as nat, pred(c, m))
    &&& grid.valid_step(pred(c, m), c, start.time + k)
}

/// The cell from which move `m` leads to `c`.
fn pred_cell(c: Cell, m: u8) -> (r: Cell)
    requires
        m < 5,
        i32::MIN < c.0 < i32::MAX,
        i32::MIN < c.1 < i32::MAX,
    ensures
        r == pred(c, m as int),
{
    if m == 1 {
        (c.0, c.1 - 1)
    } else if m == 2 {
        (c.0 - 1, c.1)
    } else if m == 3 {
        (c.0, c.1 + 1)
    } else if m == 4 {
        (c.0 + 1, c.1)
    } else {
        (c.0, c.1)
    }
}

/// The search horizon of `horizon`.
fn search_horizon(grid: &Grid, t0: i32) -> (r: usize)
    requires
        grid.width > 0,
        grid.height > 0,
        0 <= t0,
    ensures
        r == horizon(grid@, t0 as int),
{
    let mt = max_time(&grid.obstacles);
    let w = grid.width as i64;
    let h = grid.height as i64;
    assert(w * h <= 0x7fff_ffff * 0x7fff_ffff) by (nonlinear_arith)
        requires
            0 < w <= 0x7fff_ffff,
            0 < h <= 0x7fff_ffff,
    ;
    let free: i64 = (if mt > t0 {
        mt as i64 - t0 as i64
    } else {
        0
    }) + 1 + w * h;
    let cap: i64 = i32::MAX as i64 - t0 as i64;
    if free < cap {
        free as usize
    } else {
        cap as usize
    }
}

/// A shortest path for one agent from `start` to the goal of `grid`, arriving after the
/// goal's last unconditional obstacle. `conflict_avoidance_table` only breaks ties
/// between predecessors while the path is traced: each step prefers the way that met
/// fewer of its entries. Also gives the number of time layers the search went through,
/// which is the number of steps of the path.
pub fn find_shortest_path(
    grid: &Grid,
    start: LocationTime,
    conflict_avoidance_table: &Vec<LocationTime>,
) -> (r: Option<(Vec<LocationTime>, usize)>)
    requires
        grid@.in_bounds(start.location),
        0 <= start.time,
    ensures
        match r {
            Some((p, n)) => {
                &&& n == p@.len() - 1
                &&& forall|i: int| 0 <= i < p@.len() ==> (#[trigger] p@[i]).time == start.time + i
                &&& reaches_goal(grid@, start, locations(p@))
                &&& forall|q: Seq<Cell>| reaches_goal(grid@, start, q) ==> q.len() >= p@.len()
            },
            None => forall|q: Seq<Cell>| !#[trigger] reaches_goal(grid@, start, q),
        },
{
    let lgot = grid.latest_goal_obstacle_time();
    let hz = search_horizon(grid, start.time);
    let goal = grid.goal;
    if !(0 <= goal.0 && goal.0 < grid.width && 0 <= goal.1 && goal.1 < grid.height) {
        proof {
            assert forall|q: Seq<Cell>| reaches_goal(grid@, start, q) implies q.len() - 1 > horizon(
                grid@,
                start.time as int,
            ) by {
                lemma_walk_reachable(grid@, start, q, q.len() - 1);
                lemma_reachable_in_bounds(grid@, start, (q.len() - 1) as nat, q.last());
            }
            lemma_none_means_no_walk(grid@, start);
        }
        return None;
    }
    let w = grid.width as usize;
    let h = grid.height as usize;
    let mut cur: Vec<Vec<bool>> = Vec::new();
    let mut x: usize = 0;
    while x < w
        invariant
            x <= w,
            w == grid.width,
            h == grid.height,
            grid@.in_bounds(start.location),
            cur@.len() == x,
            forall|a: int| 0 <= a < x ==> (#[trigger] cur@[a])@.len() == h,
            forall|a: int, b: int|
                0 <= a < x && 0 <= b < h ==> cur@[a]@[b] == ((a as i32, b as i32) == start.location),
        decreases w - x,
    {
        let mut col: Vec<bool> = Vec::new();
        let mut y: usize = 0;
        while y < h
            invariant
                y <= h,
                x < w,
                w == grid.width,
                h == grid.height,
                col@.len() == y,
                forall|b: int| 0 <= b < y ==> col@[b] == ((x as i32, b as i32) == start.location),
            decreases h - y,
        {
            col.push(x as i32 == start.location.0 && y as i32 == start.location.1);
            y += 1;
        }
        cur.push(col);
        x += 1;
    }
    let mut cost: Vec<Vec<u64>> = table(w, h, 0u64);
    let mut parents: Vec<Vec<Vec<u8>>> = Vec::new();
    let mut k: usize = 0;
    loop
        invariant
            grid@.in_bounds(start.location),
            grid@.in_bounds(goal),
            goal == grid.goal,
            0 <= start.time,
            lgot == grid@.latest_goal_obstacle_time(),
            hz == horizon(grid@, start.time as int),
            k <= hz,
            parents@.len() == k,
            shaped(cur@, grid.width as int, grid.height as int),
            shaped(cost@, grid.width as int, grid.height as int),
            forall|a: int, b: int|
                0 <= a < grid.width && 0 <= b < grid.height ==> cur@[a]@[b] == reachable(
                    grid@,
                    start,
                    k as nat,
                    (a as i32, b as i32),
                ),
            forall|a: int, b: int| 0 <= a < grid.width && 0 <= b < grid.height ==> cost@[a]@[b] <= k,
            forall|j: int| 0 <= j < k ==> shaped(#[trigger] parents@[j]@, grid.width as int, grid.height as int),
            forall|j: int, a: int, b: int|
                0 <= j < k && 0 <= a < grid.width && 0 <= b < grid.height && reachable(
                    grid@,
                    start,
                    (j + 1) as nat,
                    (a as i32, b as i32),
                ) ==> parent_ok(grid@, start, (j + 1) as nat, (a as i32, b as i32), parents@[j]@[a]@[b] as int),
            forall|j: int|
                0 <= j < k ==> !(#[trigger] reachable(grid@, start, j as nat, goal) && start.time + j > lgot),
        decreases hz - k,
    {
        if cur[goal.0 as usize][goal.1 as usize] && start.time as i64 + k as i64 > lgot as i64 {
            return Some(trace_back(grid, start, k, &parents));
        }
        proof {
            assert(!(reachable(grid@, start, k as nat, goal) && start.time + k > lgot));
        }
        if k == hz {
            proof {
                assert forall|q: Seq<Cell>| reaches_goal(grid@, start, q) implies q.len() - 1 > horizon(
                    grid@,
                    start.time as int,
                ) by {
                    lemma_walk_reachable(grid@, start, q, q.len() - 1);
                    if q.len() - 1 <= k {
                        assert(reachable(grid@, start, (q.len() - 1) as nat, goal));
                    }
                }
                lemma_none_means_no_walk(grid@, start);
            }
            return None;
        }
        let (next, ncost, par) = next_layer(grid, start, k, &cur, &cost, conflict_avoidance_table);
        parents.push(par);
        cur = next;
        cost = ncost;
        k += 1;
    }
}

/// Follows the recorded moves back from the goal, reached after `k` steps, to the start.
fn trace_back(grid: &Grid, start: LocationTime, k: usize, parents: &Vec<Vec<Vec<u8>>>) -> (r: (
    Vec<LocationTime>,
    usize,
))
    requires
        grid@.in_bounds(start.location),
        0 <= start.time,
        start.time + k <= i32::MAX,
        start.time + k > grid@.latest_goal_obstacle_time(),
        reachable(grid@, start, k as nat, grid.goal),
        parents@.len() == k,
        forall|j: int| 0 <= j < k ==> shaped(#[trigger] parents@[j]@, grid.width as int, grid.height as int),
        forall|j: int, a: int, b: int|
            0 <= j < k && 0 <= a < grid.width && 0 <= b < grid.height && reachable(
                grid@,
                start,
                (j + 1) as nat,
                (a as i32, b as i32),
            ) ==> parent_ok(grid@, start, (j + 1) as nat, (a as i32, b as i32), parents@[j]@[a]@[b] as int),
        forall|j: int| 0 <= j < k ==> !(#[trigger] reachable(grid@, start, j as nat, grid.goal) && start.time + j > grid@.latest_goal_obstacle_time()),
    ensures
        r.1 == r.0@.len() - 1,
        forall|i: int| 0 <= i < r.0@.len() ==> (#[trigger] r.0@[i]).time == start.time + i,
        reaches_goal(grid@, start, locations(r.0@)),
        forall|q: Seq<Cell>| reaches_goal(grid@, start, q) ==> q.len() >= r.0@.len(),
{
    let mut cells: Vec<Cell> = Vec::new();
    let mut c = grid.goal;
    cells.push(c);
    let mut j: usize = k;
    while j > 0
        invariant
            j <= k,
            grid@.in_bounds(start.location),
            parents@.len() == k,
            forall|i: int| 0 <= i < k ==> shaped(#[trigger] parents@[i]@, grid.width as int, grid.height as int),
            forall|i: int, a: int, b: int|
                0 <= i < k && 0 <= a < grid.width && 0 <= b < grid.height && reachable(
                    grid@,
                    start,
                    (i + 1) as nat,
                    (a as i32, b as i32),
                ) ==> parent_ok(grid@, start, (i + 1) as nat, (a as i32, b as i32), parents@[i]@[a]@[b] as int),
            cells@.len() == k - j + 1,
            cells@[0] == grid.goal,
            c == cells@.last(),
            reachable(grid@, start, j as nat, c),
            forall|i: int| 0 <= i < cells@.len() ==> reachable(grid@, start, (k - i) as nat, #[trigger] cells@[i]),
            forall|i: int|
                1 <= i < cells@.len() ==> grid@.valid_step(
                    #[trigger] cells@[i],
                    cells@[i - 1],
                    start.time + k - i + 1,
                ),
        decreases j,
    {
        proof {
            lemma_reachable_in_bounds(grid@, start, j as nat, c);
            assert(parent_ok(grid@, start, j as nat, (c.0 as i32, c.1 as i32), parents@[j - 1]@[c.0 as int]@[c.1 as int] as int));
        }
        let m = parents[j - 1][c.0 as usize][c.1 as usize];
        c = pred_cell(c, m);
        cells.push(c);
        j -= 1;
    }
    let mut out: Vec<LocationTime> = Vec::new();
    let mut i: usize = 0;
    while i <= k
        invariant
            i <= k + 1,
            start.time + k <= i32::MAX,
            0 <= start.time,
            cells@.len() == k + 1,
            out@.len() == i,
            forall|a: int| 0 <= a < i ==> (#[trigger] out@[a]).time == start.time + a && out@[a].location == cells@[k - a],
        decreases k + 1 - i,
    {
        out.push(LocationTime { location: cells[k - i], time: start.time + i as i32 });
        i += 1;
    }
    proof {
        let p = locations(out@);
        assert(p[0] == start.location);
        assert forall|a: int| 1 <= a < p.len() implies #[trigger] grid@.valid_step(p[a - 1], p[a], start.time + a) by {
            assert(grid@.valid_step(cells@[k - a + 1], cells@[k - a], start.time + k - (k - a + 1) + 1));
        }
        assert(reaches_goal(grid@, start, p));
        assert forall|q: Seq<Cell>| reaches_goal(grid@, start, q) implies q.len() >= out@.len() by {
            lemma_walk_reachable(grid@, start, q, q.len() - 1);
            if q.len() - 1 < k {
                assert(reachable(grid@, start, (q.len() - 1) as nat, grid.goal));
            }
        }
    }
    (out, k)
}

} // verus!
