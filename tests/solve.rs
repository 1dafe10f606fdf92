use mapf_cbs::cbs::{CBSInstance, CBSOptimisationConfig, DiagonalSubsolverConfig, HighLevelHeuristic, CBS};
use mapf_cbs::grid::{Grid, LocationTime};
use mapf_cbs::high_level::Agent;

fn agent(id: &str, start: (i32, i32), goal: (i32, i32)) -> Agent {
    Agent { id: id.to_string(), start, goal }
}

fn full_config() -> Option<CBSOptimisationConfig> {
    Some(CBSOptimisationConfig::new(
        true,
        true,
        Some(DiagonalSubsolverConfig::new(0, false)),
        true,
        Some(HighLevelHeuristic::ZeroHeuristic),
    ))
}

fn lengths(config: Option<CBSOptimisationConfig>, grid: Grid, agents: Vec<Agent>) -> Vec<usize> {
    let mut cbs = CBS::new(CBSInstance::new(grid, agents), config);
    let paths = cbs.solve().expect("a solution");
    paths.iter().map(|p| p.len()).collect()
}

fn open_grid(w: i32, h: i32) -> Grid {
    Grid::new(w, h, Grid::to_conditional_obstacles(Vec::new()), (0, 0))
}

#[test]
fn two_corner() {
    let agents = vec![agent("a", (0, 0), (9, 9)), agent("b", (0, 1), (9, 8))];
    assert_eq!(lengths(full_config(), open_grid(10, 10), agents), vec![19, 17]);
}

#[test]
fn head_on() {
    let agents = vec![agent("a", (9, 9), (0, 0)), agent("b", (0, 0), (9, 9))];
    assert_eq!(lengths(full_config(), open_grid(10, 10), agents), vec![19, 19]);
}

#[test]
fn crowded() {
    let agents = vec![agent("a", (0, 0), (1, 1)), agent("b", (1, 0), (0, 0)), agent("c", (0, 1), (1, 0))];
    assert_eq!(lengths(full_config(), open_grid(2, 2), agents), vec![3, 2, 3]);
}

#[test]
fn crowded_with_obstacles() {
    let grid = Grid::new(
        3,
        3,
        Grid::to_conditional_obstacles(vec![LocationTime::new((1, 1), 2)]),
        (0, 0),
    );
    let agents = vec![agent("a", (0, 0), (2, 2)), agent("b", (1, 0), (0, 0)), agent("c", (0, 1), (1, 0))];
    assert_eq!(lengths(full_config(), grid, agents), vec![5, 2, 3]);
}

#[test]
fn must_wait() {
    let grid = Grid::new(
        3,
        3,
        Grid::to_conditional_obstacles(vec![LocationTime::new((2, 0), -1), LocationTime::new((0, 2), -1)]),
        (0, 0),
    );
    let agents = vec![agent("a", (0, 1), (2, 1)), agent("b", (1, 0), (1, 2))];
    assert_eq!(lengths(full_config(), grid, agents), vec![3, 4]);
}

fn dg_config() -> Option<CBSOptimisationConfig> {
    Some(CBSOptimisationConfig::new(true, true, None, true, Some(HighLevelHeuristic::DGHeuristic)))
}

#[test]
fn crowded_with_dependency_heuristic() {
    let agents = vec![agent("a", (0, 0), (1, 1)), agent("b", (1, 0), (0, 0)), agent("c", (0, 1), (1, 0))];
    assert_eq!(lengths(dg_config(), open_grid(2, 2), agents), vec![3, 2, 3]);
}

#[test]
fn must_wait_without_optimisations() {
    let grid = Grid::new(
        3,
        3,
        Grid::to_conditional_obstacles(vec![LocationTime::new((2, 0), -1), LocationTime::new((0, 2), -1)]),
        (0, 0),
    );
    let agents = vec![agent("a", (0, 1), (2, 1)), agent("b", (1, 0), (1, 2))];
    let l = lengths(None, grid, agents);
    assert_eq!(l.iter().sum::<usize>(), 7);
}

#[test]
fn head_on_with_promotion_and_slack() {
    let config = Some(CBSOptimisationConfig::new(
        false,
        false,
        Some(DiagonalSubsolverConfig::new(2, true)),
        false,
        None,
    ));
    let agents = vec![agent("a", (9, 9), (0, 0)), agent("b", (0, 0), (9, 9))];
    assert_eq!(lengths(config, open_grid(10, 10), agents), vec![19, 19]);
}

#[test]
fn same_inputs_same_paths() {
    let make = || {
        let agents = vec![agent("a", (0, 0), (2, 2)), agent("b", (1, 0), (0, 0)), agent("c", (0, 1), (1, 0))];
        let grid = Grid::new(3, 3, Grid::to_conditional_obstacles(vec![LocationTime::new((1, 1), 2)]), (0, 0));
        let mut cbs = CBS::new(CBSInstance::new(grid, agents), full_config());
        let paths = cbs.solve().expect("a solution");
        (paths, cbs.high_level_generated, cbs.low_level_generated)
    };
    assert_eq!(make(), make());
}

#[test]
fn second_solve_is_refused() {
    let agents = vec![agent("a", (0, 0), (1, 0))];
    let mut cbs = CBS::new(CBSInstance::new(open_grid(2, 1), agents), None);
    let paths = cbs.solve().expect("a solution");
    assert_eq!(paths, vec![vec![(0, 0), (1, 0)]]);
    assert!(cbs.high_level_generated >= 1);
    assert!(matches!(cbs.solve(), Err(mapf_cbs::cbs::CBSError::AlreadySolved)));
}

#[test]
fn walled_off_goal_is_not_found() {
    let grid = Grid::new(3, 1, Grid::to_conditional_obstacles(vec![LocationTime::new((1, 0), -1)]), (0, 0));
    let agents = vec![agent("a", (0, 0), (2, 0))];
    let mut cbs = CBS::new(CBSInstance::new(grid, agents), full_config());
    assert!(matches!(
        cbs.solve(),
        Err(mapf_cbs::cbs::CBSError::Search(mapf_cbs::cbs::SearchError::NotFound))
    ));
}

#[test]
fn solutions_have_no_conflicts() {
    let agents = vec![
        agent("a", (0, 0), (3, 3)),
        agent("b", (3, 3), (0, 0)),
        agent("c", (0, 3), (3, 0)),
        agent("d", (3, 0), (0, 3)),
    ];
    let mut cbs = CBS::new(CBSInstance::new(open_grid(4, 4), agents), full_config());
    let paths = cbs.solve().expect("a solution");
    assert!(mapf_cbs::high_level::find_conflicts(&paths).is_empty());
    assert_eq!(paths.iter().map(|p| p.len()).sum::<usize>(), 4 * 7);
}

fn exact_config() -> Option<CBSOptimisationConfig> {
    Some(CBSOptimisationConfig::new(true, true, None, true, Some(HighLevelHeuristic::ZeroHeuristic)))
}

#[test]
fn scenarios_with_exact_search() {
    let agents = vec![agent("a", (0, 0), (9, 9)), agent("b", (0, 1), (9, 8))];
    assert_eq!(lengths(exact_config(), open_grid(10, 10), agents), vec![19, 17]);
    let agents = vec![agent("a", (9, 9), (0, 0)), agent("b", (0, 0), (9, 9))];
    assert_eq!(lengths(exact_config(), open_grid(10, 10), agents), vec![19, 19]);
    let agents = vec![agent("a", (0, 0), (1, 1)), agent("b", (1, 0), (0, 0)), agent("c", (0, 1), (1, 0))];
    assert_eq!(lengths(exact_config(), open_grid(2, 2), agents), vec![3, 2, 3]);
    let grid = Grid::new(3, 3, Grid::to_conditional_obstacles(vec![LocationTime::new((1, 1), 2)]), (0, 0));
    let agents = vec![agent("a", (0, 0), (2, 2)), agent("b", (1, 0), (0, 0)), agent("c", (0, 1), (1, 0))];
    assert_eq!(lengths(exact_config(), grid, agents), vec![5, 2, 3]);
    let grid = Grid::new(
        3,
        3,
        Grid::to_conditional_obstacles(vec![LocationTime::new((2, 0), -1), LocationTime::new((0, 2), -1)]),
        (0, 0),
    );
    let agents = vec![agent("a", (0, 1), (2, 1)), agent("b", (1, 0), (1, 2))];
    assert_eq!(lengths(exact_config(), grid, agents), vec![3, 4]);
}

#[test]
fn second_solve_leaves_counters() {
    let agents = vec![agent("a", (0, 0), (1, 0)), agent("b", (1, 1), (0, 1))];
    let mut cbs = CBS::new(CBSInstance::new(open_grid(2, 2), agents), exact_config());
    cbs.solve().expect("a solution");
    let (h, l) = (cbs.high_level_generated, cbs.low_level_generated);
    assert!(cbs.solve().is_err());
    assert_eq!((cbs.high_level_generated, cbs.low_level_generated), (h, l));
}
