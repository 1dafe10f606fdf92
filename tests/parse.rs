use mapf_cbs::parse::{parse_map, parse_scenario, split_lines, ParseError};

#[test]
fn map_with_obstacles() {
    let text = b"type octile\r\nheight 2\r\nwidth 3\r\nmap\r\n.@.\r\nG.@\r\n".to_vec();
    let grid = parse_map(&text).expect("a map");
    assert_eq!((grid.width, grid.height, grid.goal), (3, 2, (0, 0)));
    let mut cells: Vec<(i32, i32)> = grid.obstacles.iter().map(|e| e.0.location).collect();
    cells.sort();
    assert_eq!(cells, vec![(1, 0), (2, 1)]);
    assert!(grid.obstacles.iter().all(|e| e.0.time == -1 && e.1.is_empty()));
    assert!(!grid.is_valid_location(&(1, 0), &(0, 0)));
    assert!(grid.is_valid_location(&(0, 1), &(0, 0)));
}

#[test]
fn map_errors() {
    assert_eq!(parse_map(&b"type octile\nheight 1\nwidth 2\nmap\n.x\n".to_vec()).err(), Some(ParseError::InvalidMap));
    assert_eq!(parse_map(&b"type octile\nheight 2\nwidth 2\nmap\n..\n".to_vec()).err(), Some(ParseError::InvalidMap));
    assert_eq!(parse_map(&b"type octile\nheight 1\nwidth 2\nmap\n...\n".to_vec()).err(), Some(ParseError::InvalidMap));
    assert_eq!(parse_map(&b"type grid\nheight 1\nwidth 1\nmap\n.\n".to_vec()).err(), Some(ParseError::InvalidMap));
    assert_eq!(parse_map(&b"type octile\nheight x\nwidth 1\nmap\n.\n".to_vec()).err(), Some(ParseError::InvalidMap));
}

#[test]
fn scenario_agents() {
    let text = b"version 1\n0\tmap.map\t16\t16\t3\t4\t5\t6\t4.0\n0\tmap.map\t16\t16\t0\t0\t15\t15\t30\n\n".to_vec();
    let agents = parse_scenario(&text).expect("a scenario");
    assert_eq!(agents.len(), 2);
    assert_eq!((agents[0].id.as_str(), agents[0].start, agents[0].goal), ("0", (3, 4), (5, 6)));
    assert_eq!((agents[1].id.as_str(), agents[1].start, agents[1].goal), ("1", (0, 0), (15, 15)));
    assert_eq!(parse_scenario(&b"vers 1\n".to_vec()).err(), Some(ParseError::InvalidScenario));
    assert_eq!(parse_scenario(&b"version 1\n0\tm\t1\t1\t0\t0\t0\n".to_vec()).err(), Some(ParseError::InvalidScenario));
}

#[test]
fn lines_drop_carriage_returns() {
    let lines = split_lines(&b"a\r\nbc\n\nd".to_vec());
    assert_eq!(lines, vec![b"a".to_vec(), b"bc".to_vec(), Vec::new(), b"d".to_vec()]);
}

#[test]
fn map_round_trip() {
    let text = b"type octile\nheight 3\nwidth 4\nmap\n.@..\nT..@\n@@.S\n".to_vec();
    let grid = parse_map(&text).expect("a map");
    let bytes = mapf_cbs::parse::map_to_bytes(&grid);
    assert_eq!(bytes, b"type octile\nheight 3\nwidth 4\nmap\n.@..\n...@\n@@..\n".to_vec());
    let again = parse_map(&bytes).expect("a map again");
    assert_eq!((again.width, again.height), (grid.width, grid.height));
    let cells = |g: &mapf_cbs::grid::Grid| {
        let mut c: Vec<(i32, i32)> = g.obstacles.iter().map(|e| e.0.location).collect();
        c.sort();
        c
    };
    assert_eq!(cells(&again), cells(&grid));
}
