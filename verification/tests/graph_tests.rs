use ant_mania::parse::parse_map;

fn lines(v: &[&str]) -> Vec<String> {
    v.iter().map(|s| s.to_string()).collect()
}

#[test]
fn lookup_finds_only_live_colonies() {
    let g = parse_map(&lines(&["A north=B", "B south=A"]));
    assert!(g.find(&"A".to_string()).is_some());
    assert!(g.find(&"B".to_string()).is_some());
    assert!(g.find(&"Z".to_string()).is_none());
}

#[test]
fn available_exits_distinguishes_dead_end_from_absent() {
    let g = parse_map(&lines(&["A north=B", "B"]));
    let a = g.available_exits(&"A".to_string()).unwrap();
    assert_eq!(a.len(), 1);
    assert_eq!(a[0].dir, "north");
    assert_eq!(a[0].dest, "B");
    let b = g.available_exits(&"B".to_string()).unwrap();
    assert_eq!(b.len(), 0);
    assert!(g.available_exits(&"Z".to_string()).is_none());
}

#[test]
fn removal_deletes_the_colony_and_every_connection_into_it() {
    let mut g = parse_map(&lines(&["A north=B east=C", "B south=A", "C west=A"]));
    g.remove_colony(&"A".to_string());
    assert!(g.find(&"A".to_string()).is_none());
    assert_eq!(g.colonies.len(), 2);
    let b = g.find(&"B".to_string()).unwrap();
    assert_eq!(g.colonies[b].connections.len(), 0);
    let c = g.find(&"C".to_string()).unwrap();
    assert_eq!(g.colonies[c].connections.len(), 0);
}

#[test]
fn removal_keeps_unrelated_connections() {
    let mut g = parse_map(&lines(&["A north=B east=C", "B south=C", "C"]));
    g.remove_colony(&"C".to_string());
    let a = g.find(&"A".to_string()).unwrap();
    assert_eq!(g.colonies[a].connections.len(), 1);
    assert_eq!(g.colonies[a].connections[0].dir, "north");
    assert_eq!(g.colonies[a].connections[0].dest, "B");
    let b = g.find(&"B".to_string()).unwrap();
    assert_eq!(g.colonies[b].connections.len(), 0);
}

#[test]
fn removing_the_only_link_of_a_pair_leaves_them_disconnected() {
    // the destroyed colony was the only entry and exit between P and Q
    let mut g = parse_map(&lines(&["P east=C", "Q west=C", "C north=P south=Q"]));
    g.remove_colony(&"C".to_string());
    let p = g.find(&"P".to_string()).unwrap();
    assert_eq!(g.colonies[p].connections.len(), 0);
    let q = g.find(&"Q".to_string()).unwrap();
    assert_eq!(g.colonies[q].connections.len(), 0);
    assert_eq!(g.colonies.len(), 2);
}

#[test]
fn removing_an_absent_name_only_prunes_connections_to_it() {
    // a dangling destination: Y never appears as a colony of its own
    let mut g = parse_map(&lines(&["X north=Y"]));
    g.remove_colony(&"Y".to_string());
    assert_eq!(g.colonies.len(), 1);
    let x = g.find(&"X".to_string()).unwrap();
    assert_eq!(g.colonies[x].connections.len(), 0);
}
