//! The grid and its space-time obstacles.
use vstd::prelude::*;

verus! {

/// A cell `(x, y)` of the grid.
pub type Cell = (i32, i32);

/// Obstacle entries: the entry `(l, s)` forbids entering `l.location` at time `l.time`
/// from any cell of `s`, or from anywhere when `s` is empty. Time `-1` is permanent.
pub type Obstacles = Vec<(LocationTime, Vec<Cell>)>;

/// A vertex of the time-expanded grid.
#[derive(Clone, Copy, Debug, Eq, Hash)]
pub struct LocationTime {
    pub location: Cell,
    pub time: i32,
}

impl PartialEq for LocationTime {
    fn eq(&self, other: &LocationTime) -> (r: bool) {
        self.location.0 == other.location.0 && self.location.1 == other.location.1 && self.time == other.time
    }
}

impl vstd::std_specs::cmp::PartialEqSpecImpl for LocationTime {
    open spec fn obeys_eq_spec() -> bool {
        true
    }

    open spec fn eq_spec(&self, other: &LocationTime) -> bool {
        self.location.0 == other.location.0 && self.location.1 == other.location.1 && self.time == other.time
    }
}

impl LocationTime {
    pub fn new(location: Cell, time: i32) -> (r: LocationTime)
        ensures
            r.location == location,
            r.time == time,
    {
        LocationTime { location, time }
    }
}

/// The grid with its permanent and dynamic, conditional and unconditional obstacles,
/// and the goal of the agent that plans on it.
#[derive(Debug)]
pub struct Grid {
    pub width: i32,
    pub height: i32,
    pub obstacles: Obstacles,
    pub goal: Cell,
}

/// An obstacle entry as a value: a space-time cell and the cells it may not be entered from.
pub type Entry = (LocationTime, Seq<Cell>);

/// The mathematical grid.
pub struct GridModel {
    pub width: int,
    pub height: int,
    pub obstacles: Seq<Entry>,
    pub goal: Cell,
}

/// The entries of `obs` as values.
pub open spec fn entries(obs: Seq<(LocationTime, Vec<Cell>)>) -> Seq<Entry> {
    obs.map_values(|e: (LocationTime, Vec<Cell>)| (e.0, e.1@))
}

impl View for Grid {
    type V = GridModel;

    open spec fn view(&self) -> GridModel {
        GridModel {
            width: self.width as int,
            height: self.height as int,
            obstacles: entries(self.obstacles@),
            goal: self.goal,
        }
    }
}

/// Whether the obstacle entry `e` forbids entering `lt` from `prev`.
pub open spec fn triggers(e: Entry, lt: LocationTime, prev: Cell) -> bool {
    e.0 == lt && (e.1.len() == 0 || e.1.contains(prev))
}

/// Whether some entry of `obs` forbids entering `lt` from `prev`.
pub open spec fn blocked(obs: Seq<Entry>, lt: LocationTime, prev: Cell) -> bool {
    exists|i: int| 0 <= i < obs.len() && #[trigger] triggers(obs[i], lt, prev)
}

/// The latest time of an unconditional entry at `goal`; `i32::MIN` when there is none.
pub open spec fn latest_unconditional(obs: Seq<Entry>, goal: Cell) -> int
    decreases obs.len(),
{
    if obs.len() == 0 {
        i32::MIN as int
    } else {
        let rest = latest_unconditional(obs.drop_last(), goal);
        let e = obs.last();
        if e.0.location == goal && e.1.len() == 0 && e.0.time > rest {
            e.0.time as int
        } else {
            rest
        }
    }
}

pub open spec fn adjacent_or_same(a: Cell, b: Cell) -> bool {
    (a.0 == b.0 && (a.1 == b.1 || a.1 == b.1 + 1 || a.1 + 1 == b.1))
    || (a.1 == b.1 && (a.0 == b.0 + 1 || a.0 + 1 == b.0))
}

impl GridModel {
    pub open spec fn in_bounds(&self, c: Cell) -> bool {
        0 <= c.0 < self.width && 0 <= c.1 < self.height
    }

    /// Entering `lt` from `prev` stays on the grid and meets neither a permanent nor
    /// a dynamic obstacle.
    pub open spec fn valid_at(&self, lt: LocationTime, prev: Cell) -> bool {
        self.in_bounds(lt.location)
        && !blocked(self.obstacles, LocationTime { location: lt.location, time: -1i32 }, prev)
        && !blocked(self.obstacles, lt, prev)
    }

    /// The step from `prev` to `next`, arriving at time `t`, is legal.
    pub open spec fn valid_step(&self, prev: Cell, next: Cell, t: int) -> bool {
        &&& adjacent_or_same(prev, next)
        &&& i32::MIN <= t <= i32::MAX
        &&& self.valid_at(LocationTime { location: next, time: t as i32 }, prev)
    }

    pub open spec fn latest_goal_obstacle_time(&self) -> int {
        latest_unconditional(self.obstacles, self.goal)
    }
}

impl Grid {
    pub fn new(width: i32, height: i32, obstacles: Obstacles, goal: Cell) -> (r: Grid)
        ensures
            r.width == width,
            r.height == height,
            r.obstacles@ == obstacles@,
            r@.obstacles == entries(obstacles@),
            r.goal == goal,
    {
        Grid { width, height, obstacles, goal }
    }

    /// Unconditional entries for the given space-time cells.
    pub fn to_conditional_obstacles(obstacles: Vec<LocationTime>) -> (r: Obstacles)
        ensures
            r@.len() == obstacles@.len(),
            forall|i: int| 0 <= i < r@.len() ==> (#[trigger] r@[i]).0 == obstacles@[i] && r@[i].1@.len() == 0,
    {
        let mut r: Obstacles = Vec::new();
        let mut i: usize = 0;
        while i < obstacles.len()
            invariant
                i <= obstacles@.len(),
                r@.len() == i,
                forall|k: int| 0 <= k < i ==> (#[trigger] r@[k]).0 == obstacles@[k] && r@[k].1@.len() == 0,
            decreases obstacles@.len() - i,
        {
            r.push((obstacles[i], Vec::new()));
            i += 1;
        }
        r
    }

    /// Whether `location` may be entered from `prev_location` as far as the
    /// permanent obstacles go.
    pub fn is_valid_location(&self, location: &Cell, prev_location: &Cell) -> (r: bool)
        ensures
            r == self@.valid_at(LocationTime { location: *location, time: -1i32 }, *prev_location),
    {
        self.is_valid_location_time(&LocationTime { location: *location, time: -1 }, prev_location)
    }

    pub fn is_valid_location_time(&self, loc_time: &LocationTime, prev_location: &Cell) -> (r: bool)
        ensures
            r == self@.valid_at(*loc_time, *prev_location),
    {
        loc_time.location.0 >= 0 && loc_time.location.0 < self.width && loc_time.location.1 >= 0
            && loc_time.location.1 < self.height && !self.is_obstacle(
            &LocationTime { location: loc_time.location, time: -1 },
            prev_location,
        ) && !self.is_obstacle(loc_time, prev_location)
    }

    pub fn is_obstacle(&self, loc_time: &LocationTime, prev_location: &Cell) -> (r: bool)
        ensures
            r == blocked(self@.obstacles, *loc_time, *prev_location),
    {
        is_blocked(&self.obstacles, loc_time, prev_location)
    }

    pub fn latest_goal_obstacle_time(&self) -> (r: i32)
        ensures
            r == self@.latest_goal_obstacle_time(),
    {
        let mut r: i32 = i32::MIN;
        let mut i: usize = 0;
        while i < self.obstacles.len()
            invariant
                i <= self.obstacles@.len(),
                r == latest_unconditional(entries(self.obstacles@.take(i as int)), self.goal),
            decreases self.obstacles@.len() - i,
        {
            proof {
                assert(entries(self.obstacles@.take(i + 1)).drop_last() =~= entries(self.obstacles@.take(i as int)));
            }
            let e = &self.obstacles[i];
            if same_cell(e.0.location, self.goal) && e.1.len() == 0 && e.0.time > r {
                r = e.0.time;
            }
            i += 1;
        }
        proof {
            assert(self.obstacles@.take(i as int) =~= self.obstacles@);
        }
        r
    }
}

/// The latest time of an unconditional entry of `obs` at `goal`.
pub fn latest_unconditional_of(obs: &Obstacles, goal: Cell) -> (r: i32)
    ensures
        r == latest_unconditional(entries(obs@), goal),
{
    let mut r: i32 = i32::MIN;
    let mut i: usize = 0;
    while i < obs.len()
        invariant
            i <= obs@.len(),
            r == latest_unconditional(entries(obs@.take(i as int)), goal),
        decreases obs@.len() - i,
    {
        proof {
            assert(entries(obs@.take(i + 1)).drop_last() =~= entries(obs@.take(i as int)));
        }
        let e = &obs[i];
        if same_cell(e.0.location, goal) && e.1.len() == 0 && e.0.time > r {
            r = e.0.time;
        }
        i += 1;
    }
    proof {
        assert(obs@.take(i as int) =~= obs@);
    }
    r
}

/// Whether two cells are the same.
pub fn same_cell(a: Cell, b: Cell) -> (r: bool)
    ensures
        r == (a == b),
{
    a.0 == b.0 && a.1 == b.1
}

/// A copy of `v`.
pub fn copy_cells(v: &Vec<Cell>) -> (r: Vec<Cell>)
    ensures
        r@ == v@,
{
    let mut r: Vec<Cell> = Vec::new();
    let mut i: usize = 0;
    while i < v.len()
        invariant
            i <= v@.len(),
            r@ == v@.take(i as int),
        decreases v@.len() - i,
    {
        r.push(v[i]);
        i += 1;
        proof {
            assert(r@ =~= v@.take(i as int));
        }
    }
    proof {
        assert(v@.take(i as int) =~= v@);
    }
    r
}

/// A copy of the obstacle entries `obs`: the same keys and the same sets.
pub fn copy_obstacles(obs: &Obstacles) -> (r: Obstacles)
    ensures
        r@.len() == obs@.len(),
        forall|i: int| 0 <= i < obs@.len() ==> (#[trigger] r@[i]).0 == obs@[i].0 && r@[i].1@ == obs@[i].1@,
{
    let mut r: Obstacles = Vec::new();
    let mut i: usize = 0;
    while i < obs.len()
        invariant
            i <= obs@.len(),
            r@.len() == i,
            forall|k: int| 0 <= k < i ==> (#[trigger] r@[k]).0 == obs@[k].0 && r@[k].1@ == obs@[k].1@,
        decreases obs@.len() - i,
    {
        r.push((obs[i].0, copy_cells(&obs[i].1)));
        i += 1;
    }
    r
}

/// Whether `list` holds `c`.
pub fn contains_cell(list: &Vec<Cell>, c: &Cell) -> (r: bool)
    ensures
        r == list@.contains(*c),
{
    let mut i: usize = 0;
    while i < list.len()
        invariant
            i <= list@.len(),
            forall|k: int| 0 <= k < i ==> list@[k] != *c,
        decreases list@.len() - i,
    {
        if same_cell(list[i], *c) {
            return true;
        }
        i += 1;
    }
    false
}

/// Whether some entry of `obs` forbids entering `lt` from `prev`.
pub fn is_blocked(obs: &Obstacles, lt: &LocationTime, prev: &Cell) -> (r: bool)
    ensures
        r == blocked(entries(obs@), *lt, *prev),
{
    let mut i: usize = 0;
    while i < obs.len()
        invariant
            i <= obs@.len(),
            forall|k: int| 0 <= k < i ==> !#[trigger] triggers(entries(obs@)[k], *lt, *prev),
        decreases obs@.len() - i,
    {
        let e = &obs[i];
        if same_cell(e.0.location, lt.location) && e.0.time == lt.time && (e.1.len() == 0 || contains_cell(&e.1, prev)) {
            proof {
                assert(triggers(entries(obs@)[i as int], *lt, *prev));
            }
            return true;
        }
        i += 1;
    }
    false
}

} // verus!
