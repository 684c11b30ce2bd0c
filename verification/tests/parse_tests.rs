use ant_mania::parse::{parse_line, parse_map, parse_token, split_ws_exec};

#[test]
fn split_on_spaces_and_tabs() {
    let toks = split_ws_exec("A north=B\teast=C  south=D");
    let toks: Vec<&str> = toks.iter().map(|t| t.as_str()).collect();
    assert_eq!(toks, vec!["A", "north=B", "east=C", "south=D"]);
}

#[test]
fn split_blank_line_yields_nothing() {
    assert_eq!(split_ws_exec("").len(), 0);
    assert_eq!(split_ws_exec("   \t ").len(), 0);
}

#[test]
fn token_with_one_separator_parses() {
    let c = parse_token("north=B").unwrap();
    assert_eq!(c.dir, "north");
    assert_eq!(c.dest, "B");
}

#[test]
fn token_without_separator_is_dropped() {
    assert!(parse_token("badtoken").is_none());
}

#[test]
fn token_with_two_separators_is_dropped() {
    assert!(parse_token("a=b=c").is_none());
}

#[test]
fn token_with_empty_sides_parses() {
    let c = parse_token("=B").unwrap();
    assert_eq!(c.dir, "");
    assert_eq!(c.dest, "B");
    let c = parse_token("north=").unwrap();
    assert_eq!(c.dir, "north");
    assert_eq!(c.dest, "");
}

#[test]
fn malformed_token_is_ignored_not_fatal() {
    // the colony is still created, with only the well-formed connection
    let c = parse_line("X north=Y badtoken").unwrap();
    assert_eq!(c.name, "X");
    assert_eq!(c.connections.len(), 1);
    assert_eq!(c.connections[0].dir, "north");
    assert_eq!(c.connections[0].dest, "Y");
}

#[test]
fn blank_line_yields_no_colony() {
    assert!(parse_line("").is_none());
    assert!(parse_line(" \t ").is_none());
}

#[test]
fn repeated_direction_replaces_destination() {
    let c = parse_line("A north=B north=C").unwrap();
    assert_eq!(c.connections.len(), 1);
    assert_eq!(c.connections[0].dir, "north");
    assert_eq!(c.connections[0].dest, "C");
}

#[test]
fn line_with_name_only_is_a_dead_end() {
    let c = parse_line("Lonely").unwrap();
    assert_eq!(c.name, "Lonely");
    assert_eq!(c.connections.len(), 0);
}

#[test]
fn repeated_colony_line_replaces_the_colony() {
    let lines = vec!["A north=B".to_string(), "A south=C".to_string()];
    let g = parse_map(&lines);
    assert_eq!(g.colonies.len(), 1);
    let i = g.find(&"A".to_string()).unwrap();
    assert_eq!(g.colonies[i].connections.len(), 1);
    assert_eq!(g.colonies[i].connections[0].dir, "south");
    assert_eq!(g.colonies[i].connections[0].dest, "C");
}

#[test]
fn map_keeps_every_named_colony() {
    let lines = vec![
        "A north=B".to_string(),
        "".to_string(),
        "B south=A".to_string(),
    ];
    let g = parse_map(&lines);
    assert_eq!(g.colonies.len(), 2);
    assert!(g.find(&"A".to_string()).is_some());
    assert!(g.find(&"B".to_string()).is_some());
    assert!(g.find(&"C".to_string()).is_none());
}
