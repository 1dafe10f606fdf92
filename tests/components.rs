use mapf_cbs::diagonal_subsolver::{
    plan_agent_path, Diagonal,
    are_dependent, find_diagonal_sets, max_waits_exceeded, most_populous_diag_type, DiagonalDirection, DiagonalHalf,
};
use mapf_cbs::grid::{Grid, LocationTime};
use mapf_cbs::high_level::{bypass_conflict, find_conflicts, Agent, Conflict, ConflictTreeNode, Constraint};
use mapf_cbs::io::{path_to_string, paths_to_string};
use mapf_cbs::low_level::find_shortest_path;
use mapf_cbs::mdd::{merge_mdds, mdd, MDDError};
use mapf_cbs::prioritisation::{cardinality, pick_conflict, ConflictCardinality};
use mapf_cbs::vertex_cover::{find_mvc, min_vertex_cover, MVCGraph};

fn agent(id: &str, start: (i32, i32), goal: (i32, i32)) -> Agent {
    Agent { id: id.to_string(), start, goal }
}

fn open_grid(w: i32, h: i32, goal: (i32, i32)) -> Grid {
    Grid::new(w, h, Grid::to_conditional_obstacles(Vec::new()), goal)
}

fn blocked_square() -> Vec<LocationTime> {
    let mut v = Vec::new();
    for x in 1..4 {
        for y in 1..4 {
            v.push(LocationTime::new((x, y), 0));
        }
    }
    v
}

#[test]
fn tests_test_path_finding() {
    let grid = Grid::new(5, 5, Grid::to_conditional_obstacles(blocked_square()), (4, 4));
    let start = LocationTime::new((0, 0), 0);
    let (path, _) = find_shortest_path(&grid, start, &Vec::new()).expect("No path found");
    assert_eq!(path[path.len() - 1].location, (4, 4));
    assert_eq!(path[path.len() - 1].time, 8);
    assert_eq!(path.len(), 9);
}

#[test]
fn lower_level_test_path_finding() {
    let grid = Grid::new(5, 5, Grid::to_conditional_obstacles(blocked_square()), (4, 4));
    let start = LocationTime::new((0, 0), 0);
    let (path, _) = find_shortest_path(&grid, start, &Vec::new()).expect("No path found");
    let target = path[path.len() - 1];
    assert_eq!(target.location, (4, 4));
    assert_eq!(target.time, 8);
}

fn is_valid_move(from: &LocationTime, to: &LocationTime) -> bool {
    let dx = (from.location.0 - to.location.0).abs();
    let dy = (from.location.1 - to.location.1).abs();
    to.time - from.time == 1 && dx + dy <= 1
}

#[test]
fn low_level_paths_are_valid_moves() {
    for (w, h, start, goal) in [(7, 3, (0, 0), (6, 2)), (1, 1, (0, 0), (0, 0)), (4, 9, (3, 8), (0, 1))] {
        let grid = open_grid(w, h, goal);
        let (path, _) = find_shortest_path(&grid, LocationTime::new(start, 0), &Vec::new()).expect("a path");
        for k in 1..path.len() {
            assert!(is_valid_move(&path[k - 1], &path[k]));
        }
        assert_eq!(path[0].location, start);
        assert_eq!(path[path.len() - 1].location, goal);
        let manhattan = (start.0 - goal.0).abs() + (start.1 - goal.1).abs();
        assert_eq!(path.len() as i32, manhattan + 1);
    }
}

#[test]
fn low_level_waits_out_goal_obstacle() {
    let grid = Grid::new(3, 1, Grid::to_conditional_obstacles(vec![LocationTime::new((2, 0), 5)]), (2, 0));
    let (path, _) = find_shortest_path(&grid, LocationTime::new((0, 0), 0), &Vec::new()).expect("a path");
    assert_eq!(path.len(), 7);
    assert_eq!(path[6].location, (2, 0));
}

#[test]
fn low_level_edge_obstacle_forces_detour() {
    let obstacles = vec![(LocationTime::new((1, 0), 1), vec![(0, 0)])];
    let grid = Grid::new(2, 2, obstacles, (1, 0));
    let (path, _) = find_shortest_path(&grid, LocationTime::new((0, 0), 0), &Vec::new()).expect("a path");
    assert_eq!(path.len(), 3);
    assert!(grid.is_valid_location_time(&LocationTime::new((1, 0), 1), &(1, 1)));
    assert!(!grid.is_valid_location_time(&LocationTime::new((1, 0), 1), &(0, 0)));
}

#[test]
fn low_level_unreachable_goal() {
    let walls = vec![LocationTime::new((1, 0), -1), LocationTime::new((1, 1), -1)];
    let grid = Grid::new(3, 2, Grid::to_conditional_obstacles(walls), (2, 0));
    assert!(find_shortest_path(&grid, LocationTime::new((0, 0), 0), &Vec::new()).is_none());
}

#[test]
fn latest_goal_obstacle_time_counts_unconditional_entries_only() {
    let obstacles = vec![
        (LocationTime::new((2, 2), 4), Vec::new()),
        (LocationTime::new((2, 2), 9), vec![(1, 2)]),
        (LocationTime::new((1, 1), 12), Vec::new()),
    ];
    let grid = Grid::new(3, 3, obstacles, (2, 2));
    assert_eq!(grid.latest_goal_obstacle_time(), 4);
    assert_eq!(open_grid(3, 3, (0, 0)).latest_goal_obstacle_time(), i32::MIN);
}

fn graph(edges: &[(usize, usize)]) -> MVCGraph {
    let mut g = MVCGraph::new();
    for &(u, v) in edges {
        g.add_edge(u, v);
    }
    g
}

fn check_cover(edges: &[(usize, usize)], k: usize, expected: Option<usize>) {
    let g = graph(edges);
    match min_vertex_cover(&g, k) {
        Some(cover) => {
            for &(u, v) in edges {
                assert!(cover.contains(&u) || cover.contains(&v));
            }
            assert_eq!(Some(cover.len()), expected);
        }
        None => assert_eq!(expected, None),
    }
}

#[test]
fn test_min_vertex_cover() {
    let square = [(0, 1), (0, 2), (1, 2), (1, 3), (2, 3)];
    check_cover(&square, 2, Some(2));
    check_cover(&[(0, 1), (0, 2), (1, 2), (1, 3), (2, 3), (2, 4)], 4, Some(2));
    check_cover(&square, 1, None);
    check_cover(&square, 6, Some(2));
    check_cover(&square, 0, None);
    check_cover(&[], 3, Some(0));
}

#[test]
fn find_mvc_finds_a_minimum_cover() {
    let star = [(0, 1), (0, 2), (0, 3), (0, 4)];
    assert_eq!(find_mvc(&graph(&star)), vec![0]);
    let path = [(0, 1), (1, 2), (2, 3), (3, 4), (4, 5)];
    assert_eq!(find_mvc(&graph(&path)).len(), 3);
    assert!(find_mvc(&graph(&[])).is_empty());
}

#[test]
fn graph_edits() {
    let mut g = graph(&[(0, 1), (1, 2), (2, 3)]);
    assert_eq!(g.get_neighbours(1).map(|mut v| { v.sort(); v }), Some(vec![0, 2]));
    assert_eq!(g.get_neighbours(7), None);
    g.remove_edge(1, 2);
    assert_eq!(g.edges, vec![(0, 1), (2, 3)]);
    g.remove_vertex(3);
    assert_eq!(g.edges, vec![(0, 1)]);
    assert_eq!(g.get_some_edge(), Some((0, 1)));
    assert!(!g.empty());
}

fn sorted_layers(layers: Vec<Vec<(i32, i32)>>) -> Vec<Vec<(i32, i32)>> {
    layers
        .into_iter()
        .map(|mut l| {
            l.sort();
            l
        })
        .collect()
}

fn expect_mdd(grid: Grid, start: (i32, i32), goal: (i32, i32), c: i32, expected: Vec<Vec<(i32, i32)>>) {
    let layers = mdd(&agent("a", start, goal), &grid, c).expect("an mdd");
    assert_eq!(sorted_layers(layers), sorted_layers(expected));
}

#[test]
fn mdd_simple() {
    expect_mdd(
        open_grid(10, 10, (0, 0)),
        (0, 0),
        (5, 5),
        10,
        vec![
            vec![(0, 0)],
            vec![(1, 0), (0, 1)],
            vec![(2, 0), (1, 1), (0, 2)],
            vec![(3, 0), (2, 1), (1, 2), (0, 3)],
            vec![(4, 0), (3, 1), (2, 2), (1, 3), (0, 4)],
            vec![(5, 0), (4, 1), (3, 2), (2, 3), (1, 4), (0, 5)],
            vec![(5, 1), (4, 2), (3, 3), (2, 4), (1, 5)],
            vec![(5, 2), (4, 3), (3, 4), (2, 5)],
            vec![(5, 3), (4, 4), (3, 5)],
            vec![(5, 4), (4, 5)],
            vec![(5, 5)],
        ],
    );
}

#[test]
fn mdd_non_optimal_path() {
    let grid = Grid::new(
        16,
        16,
        Grid::to_conditional_obstacles(vec![LocationTime::new((6, 10), 4), LocationTime::new((6, 10), 2)]),
        (0, 0),
    );
    expect_mdd(
        grid,
        (6, 6),
        (6, 12),
        7,
        vec![
            vec![(6, 6)],
            vec![(6, 7), (6, 6)],
            vec![(6, 8), (6, 7)],
            vec![(6, 9), (6, 8)],
            vec![(6, 9)],
            vec![(6, 10)],
            vec![(6, 11)],
            vec![(6, 12)],
        ],
    );
}

#[test]
fn mdd_with_obstacles() {
    let grid = Grid::new(
        10,
        10,
        Grid::to_conditional_obstacles(vec![
            LocationTime::new((1, 1), -1),
            LocationTime::new((1, 2), -1),
            LocationTime::new((1, 3), -1),
        ]),
        (0, 0),
    );
    expect_mdd(
        grid,
        (0, 0),
        (5, 5),
        10,
        vec![
            vec![(0, 0)],
            vec![(1, 0), (0, 1)],
            vec![(2, 0), (0, 2)],
            vec![(3, 0), (2, 1), (0, 3)],
            vec![(4, 0), (3, 1), (2, 2), (0, 4)],
            vec![(5, 0), (4, 1), (3, 2), (2, 3), (1, 4), (0, 5)],
            vec![(5, 1), (4, 2), (3, 3), (2, 4), (1, 5)],
            vec![(5, 2), (4, 3), (3, 4), (2, 5)],
            vec![(5, 3), (4, 4), (3, 5)],
            vec![(5, 4), (4, 5)],
            vec![(5, 5)],
        ],
    );
}

#[test]
fn mdd_goal_unreachable() {
    let r = mdd(&agent("a", (0, 0), (5, 6)), &open_grid(10, 10, (0, 0)), 10);
    assert_eq!(r.err(), Some(MDDError::GoalUnreachable));
}

#[test]
fn joint_mdd_prunes_shared_cells_and_swaps() {
    let m1 = vec![vec![(0, 0)], vec![(1, 0)]];
    let m2 = vec![vec![(1, 0)], vec![(0, 0)]];
    let joint = merge_mdds(&m1, &m2, 1);
    assert_eq!(joint, vec![vec![((0, 0), (1, 0))], vec![]]);
    let m3 = vec![vec![(0, 1)], vec![(1, 1)], vec![(1, 0)]];
    let joint = merge_mdds(&m1, &m3, 2);
    assert_eq!(joint.len(), 3);
    assert_eq!(joint[2], vec![]);
    let m4 = vec![vec![(0, 1)], vec![(1, 1)]];
    assert_eq!(merge_mdds(&m1, &m4, 2)[2], vec![((1, 0), (1, 1))]);
    assert!(mapf_cbs::mdd::is_joint_mdd_empty(&merge_mdds(&m1, &m2, 1), (1, 0), (0, 0)));
    assert!(!mapf_cbs::mdd::is_joint_mdd_empty(&merge_mdds(&m1, &m4, 2), (1, 0), (1, 1)));
}

#[test]
fn conflicts_vertex_and_edge() {
    let paths = vec![vec![(0, 0), (1, 0), (2, 0)], vec![(2, 0), (1, 0), (0, 0)], vec![(5, 5)]];
    let conflicts = find_conflicts(&paths);
    assert_eq!(conflicts.len(), 1);
    match conflicts[0] {
        Conflict::Vertex(v) => {
            assert_eq!((v.agent1, v.agent2, v.time, v.location), (1, 0, 1, (1, 0)));
        }
        Conflict::Edge(_) => panic!("expected a vertex conflict"),
    }
    let swap = vec![vec![(0, 0), (1, 0)], vec![(1, 0), (0, 0)]];
    let conflicts = find_conflicts(&swap);
    assert_eq!(conflicts.len(), 1);
    match conflicts[0] {
        Conflict::Edge(e) => {
            assert_eq!((e.agent1, e.agent2, e.time, e.location1, e.location2), (1, 0, 1, (0, 0), (1, 0)));
        }
        Conflict::Vertex(_) => panic!("expected an edge conflict"),
    }
    let waits_on_goal = vec![vec![(1, 1)], vec![(0, 1), (0, 0), (1, 0), (1, 1)]];
    let conflicts = find_conflicts(&waits_on_goal);
    assert_eq!(conflicts.len(), 1);
    assert!(find_conflicts(&vec![vec![(0, 0), (0, 1)], vec![(1, 0), (1, 1)]]).is_empty());
}

fn node_with_paths(agents: &Vec<Agent>, grid: &Grid, paths: Vec<Vec<(i32, i32)>>) -> ConflictTreeNode {
    ConflictTreeNode::new(agents, Vec::new(), paths.into_iter().map(Some).collect(), grid, None, false).expect("a node")
}

fn agents_for(paths: &[Vec<(i32, i32)>]) -> Vec<Agent> {
    paths
        .iter()
        .enumerate()
        .map(|(i, p)| agent(&i.to_string(), p[0], p[p.len() - 1]))
        .collect()
}

#[test]
fn test_bypass_conflict() {
    let grid = open_grid(10, 5, (0, 0));
    let parent_paths = vec![vec![(0, 0), (1, 0), (2, 0)], vec![(1, 0), (1, 0), (1, 1)]];
    let agents = agents_for(&parent_paths);
    let parent = node_with_paths(&agents, &grid, parent_paths);
    let conflict = parent.conflicts[0];
    let children = vec![
        node_with_paths(&agents, &grid, vec![vec![(0, 0), (1, 0), (2, 0)], vec![(1, 0), (1, 1), (1, 1)]]),
        node_with_paths(&agents, &grid, vec![vec![(0, 0), (0, 0), (1, 0), (2, 0)], vec![(1, 0), (1, 0), (1, 1)]]),
    ];
    let result = bypass_conflict(&parent, &conflict, children, &agents, &grid);
    assert_eq!(result.len(), 1);
    assert!(result[0].conflicts.len() < parent.conflicts.len());

    let parent_paths = vec![vec![(0, 0), (1, 0)], vec![(1, 0), (0, 0)]];
    let agents = agents_for(&parent_paths);
    let parent = node_with_paths(&agents, &grid, parent_paths);
    let conflict = parent.conflicts[0];
    let children = vec![
        node_with_paths(&agents, &grid, vec![vec![(0, 0), (1, 0)], vec![(1, 0), (1, 1), (0, 1), (0, 0)]]),
        node_with_paths(&agents, &grid, vec![vec![(0, 0), (0, 1), (0, 0), (1, 0)], vec![(1, 0), (0, 0)]]),
    ];
    let result = bypass_conflict(&parent, &conflict, children, &agents, &grid);
    assert_eq!(result.len(), 2);
}

#[test]
fn node_replans_invalid_paths_and_keeps_constraints() {
    let grid = open_grid(4, 4, (0, 0));
    let agents = vec![agent("a", (0, 0), (3, 0))];
    let constraints = vec![Constraint::new(0, 1, (1, 0), None)];
    let node = ConflictTreeNode::new(&agents, constraints, vec![Some(vec![(0, 0), (1, 0), (2, 0), (3, 0)])], &grid, None, true)
        .expect("a node");
    assert_eq!(node.paths[0].len(), 5);
    assert_ne!(node.paths[0][1], (1, 0));
    assert_eq!(node.constraints.len(), 1);
    assert_eq!(node.constraints[0].time(), 1);
    assert_eq!(node.constraints[0].location(), (1, 0));
    assert_eq!(node.constraints[0].agent(), 0);
    assert!(node.conflicts().is_empty());
}

#[test]
fn expansion_adds_one_constraint_per_child() {
    let grid = open_grid(3, 3, (0, 0));
    let agents = vec![agent("a", (0, 1), (2, 1)), agent("b", (1, 0), (1, 2))];
    let node = ConflictTreeNode::new(&agents, Vec::new(), vec![None, None], &grid, None, false).expect("a node");
    assert!(!node.conflicts.is_empty());
    let children = node.expand(&agents, &grid, 0, None, false, false);
    assert_eq!(children.len(), 2);
    for child in children.iter() {
        assert_eq!(child.constraints.len(), 1);
        assert!(child.cost() >= node.cost());
    }
}

#[test]
fn cardinality_of_a_head_on_conflict() {
    let grid = open_grid(3, 1, (0, 0));
    let agents = vec![agent("a", (0, 0), (2, 0)), agent("b", (2, 0), (0, 0))];
    let paths = vec![vec![(0, 0), (1, 0), (2, 0)], vec![(2, 0), (1, 0), (0, 0)]];
    let conflicts = find_conflicts(&paths);
    assert_eq!(cardinality(&grid, &agents, &paths, &conflicts[0]), ConflictCardinality::NonCardinal);
    assert_eq!(pick_conflict(&grid, &agents, &paths, &conflicts), Some(0));
    assert_eq!(pick_conflict(&grid, &agents, &paths, &Vec::new()), None);
    let strip = open_grid(2, 1, (0, 0));
    let agents = vec![agent("a", (0, 0), (0, 0)), agent("b", (1, 0), (0, 0))];
    let paths = vec![vec![(0, 0)], vec![(1, 0), (0, 0)]];
    let conflicts = find_conflicts(&paths);
    assert_eq!(conflicts.len(), 1);
    assert_eq!(cardinality(&strip, &agents, &paths, &conflicts[0]), ConflictCardinality::SemiCardinal);
}

#[test]
fn test_find_diagonal_sets() {
    let agents = vec![
        agent("0", (0, 2), (9, 9)),
        agent("1", (2, 0), (9, 7)),
        agent("2", (1, 1), (9, 8)),
        agent("3", (4, 4), (7, 7)),
    ];
    let grid = open_grid(10, 10, (0, 0));
    let sets = find_diagonal_sets(&agents, &grid);
    assert_eq!(sets.len(), 2);
    assert_eq!((sets[0].0.direction, sets[0].0.half, sets[0].0.offset), (DiagonalDirection::Up, DiagonalHalf::Right, 2));
    let mut first = sets[0].1.clone();
    first.sort();
    assert_eq!(first, vec![0, 1, 2]);
    assert_eq!(sets[0].1, vec![1, 2, 0]);
    assert_eq!(sets[1].0.offset, 8);
    assert_eq!(sets[1].1, vec![3]);
    assert_eq!(most_populous_diag_type(&sets), (DiagonalDirection::Up, DiagonalHalf::Right));
}

#[test]
fn diagonal_helpers() {
    assert!(are_dependent(&agent("a", (0, 0), (3, 3)), &agent("b", (1, 1), (2, 2))));
    assert!(!are_dependent(&agent("a", (0, 0), (3, 3)), &agent("b", (1, 0), (4, 3))));
    assert!(max_waits_exceeded(&vec![(0, 0), (0, 0), (0, 0)], 1));
    assert!(!max_waits_exceeded(&vec![(0, 0), (0, 0), (1, 0)], 1));
}

#[test]
fn text_of_paths() {
    let path = vec![(1, 2), (1, 3), (-4, 3)];
    assert_eq!(path_to_string("7", &path), "Agent 7: (2,1)->(3,1)->(3,-4)->");
    let agents = vec![agent("a", (0, 0), (0, 1)), agent("b", (10, 0), (10, 0))];
    let paths = vec![vec![(0, 0), (0, 1)], vec![(10, 0)]];
    assert_eq!(paths_to_string(&agents, &paths), "Agent a: (0,0)->(1,0)->\nAgent b: (0,10)->\n");
}

#[test]
fn diagonal_route_waits_out_goal_obstacle() {
    let grid = open_grid(4, 4, (0, 0));
    let a = agent("a", (0, 0), (2, 0));
    let diagonal = Diagonal { direction: DiagonalDirection::Up, half: DiagonalHalf::Right, offset: 0 };
    let extra = vec![(LocationTime::new((2, 0), 2), Vec::new())];
    let (path, found) = plan_agent_path(&a, &diagonal, &grid, &extra, 1);
    assert!(found);
    assert_eq!(path, vec![(0, 0), (1, 0), (1, 0), (2, 0)]);
    let (_, found) = plan_agent_path(&a, &diagonal, &grid, &extra, 0);
    assert!(!found);
}
