use ant_mania::graph::Graph;
use ant_mania::parse::parse_map;
use ant_mania::sim::{move_ant, Ant, Sim};

fn lines(v: &[&str]) -> Vec<String> {
    v.iter().map(|s| s.to_string()).collect()
}

fn ants_at(positions: &[&str]) -> Vec<Ant> {
    positions
        .iter()
        .enumerate()
        .map(|(id, p)| Ant { id, position: p.to_string() })
        .collect()
}

fn position_of(sim: &Sim, id: usize) -> Option<String> {
    sim.ants.iter().find(|a| a.id == id).map(|a| a.position.clone())
}

#[test]
fn swapping_agents_do_not_collide() {
    // both agents move toward each other's colony and simply swap places
    let g = parse_map(&lines(&["A north=B", "B south=A"]));
    let mut sim = Sim::new(g, ants_at(&["A", "B"]), 10_000);
    let mut rng = rand::thread_rng();
    let events = sim.run_step(&mut rng);
    assert_eq!(events.len(), 0);
    assert_eq!(sim.ants.len(), 2);
    assert_eq!(position_of(&sim, 0).unwrap(), "B");
    assert_eq!(position_of(&sim, 1).unwrap(), "A");
    assert_eq!(sim.graph.colonies.len(), 2);
    assert!(sim.should_continue());
}

#[test]
fn three_agents_arriving_together_destroy_the_colony() {
    // every agent's only exit leads to B, so all three arrive there at once
    let g = parse_map(&lines(&["A north=B", "C south=B", "D east=B", "B"]));
    let mut sim = Sim::new(g, ants_at(&["A", "C", "D"]), 10_000);
    let mut rng = rand::thread_rng();
    let events = sim.run(&mut rng);
    assert_eq!(events.len(), 1);
    assert_eq!(events[0].colony, "B");
    assert_eq!(events[0].ant_ids, vec![0, 1, 2]);
    assert_eq!(sim.ants.len(), 0);
    assert_eq!(sim.moves, 1);
    assert!(sim.graph.find(&"B".to_string()).is_none());
    // the connections into B are gone with it
    for name in ["A", "C", "D"] {
        let i = sim.graph.find(&name.to_string()).unwrap();
        assert_eq!(sim.graph.colonies[i].connections.len(), 0);
    }
    assert_eq!(sim.destroyed, vec!["B".to_string()]);
}

#[test]
fn lone_trapped_agent_never_steps() {
    // a single-agent run ends at once: the loop needs more than one agent
    let g = parse_map(&lines(&["Lonely"]));
    let mut sim = Sim::new(g, ants_at(&["Lonely"]), 10_000);
    let mut rng = rand::thread_rng();
    let events = sim.run(&mut rng);
    assert_eq!(events.len(), 0);
    assert_eq!(sim.moves, 0);
    assert_eq!(sim.ants.len(), 1);
    assert_eq!(sim.ants[0].position, "Lonely");
}

#[test]
fn trapped_agent_keeps_its_position_across_steps() {
    let g = parse_map(&lines(&["A", "B north=A"]));
    let mut sim = Sim::new(g, ants_at(&["A", "B"]), 10_000);
    let mut rng = rand::thread_rng();
    // step 1: agent 1 walks into A, agent 0 stays trapped; one arrival is no
    // collision
    let events = sim.run_step(&mut rng);
    assert_eq!(events.len(), 0);
    assert_eq!(position_of(&sim, 0).unwrap(), "A");
    assert_eq!(position_of(&sim, 1).unwrap(), "A");
    // step 2: both agents are trapped now and nothing changes
    let events = sim.run_step(&mut rng);
    assert_eq!(events.len(), 0);
    assert_eq!(position_of(&sim, 0).unwrap(), "A");
    assert_eq!(position_of(&sim, 1).unwrap(), "A");
    assert_eq!(sim.graph.colonies.len(), 2);
}

#[test]
fn shared_start_alone_is_no_collision() {
    // two trapped agents share a colony from placement on; nothing arrives,
    // nothing is destroyed
    let g = parse_map(&lines(&["A"]));
    let mut sim = Sim::new(g, ants_at(&["A", "A"]), 10_000);
    let mut rng = rand::thread_rng();
    let events = sim.run_step(&mut rng);
    assert_eq!(events.len(), 0);
    assert_eq!(sim.ants.len(), 2);
    assert_eq!(sim.graph.colonies.len(), 1);
}

#[test]
fn two_arrivals_destroy_and_remove_both_agents() {
    let g = parse_map(&lines(&["A north=B", "B"]));
    let mut sim = Sim::new(g, ants_at(&["A", "A"]), 10_000);
    let mut rng = rand::thread_rng();
    let events = sim.run_step(&mut rng);
    assert_eq!(events.len(), 1);
    assert_eq!(events[0].colony, "B");
    assert_eq!(events[0].ant_ids, vec![0, 1]);
    assert_eq!(sim.ants.len(), 0);
    assert!(sim.graph.find(&"B".to_string()).is_none());
    let a = sim.graph.find(&"A".to_string()).unwrap();
    assert_eq!(sim.graph.colonies[a].connections.len(), 0);
}

#[test]
fn stationary_bystander_is_destroyed_with_the_colony() {
    // agent 0 sits trapped at B; agents 1 and 2 both arrive there; the event
    // reports the arriving agents, and all occupants are removed
    let g = parse_map(&lines(&["B", "A north=B"]));
    let mut sim = Sim::new(g, ants_at(&["B", "A", "A"]), 10_000);
    let mut rng = rand::thread_rng();
    let events = sim.run_step(&mut rng);
    assert_eq!(events.len(), 1);
    assert_eq!(events[0].colony, "B");
    assert_eq!(events[0].ant_ids, vec![1, 2]);
    assert_eq!(sim.ants.len(), 0);
}

#[test]
fn run_stops_at_the_step_ceiling() {
    // two agents swap forever; the ceiling is what ends the run
    let g = parse_map(&lines(&["A north=B", "B south=A"]));
    let mut sim = Sim::new(g, ants_at(&["A", "B"]), 7);
    let mut rng = rand::thread_rng();
    let events = sim.run(&mut rng);
    assert_eq!(events.len(), 0);
    assert_eq!(sim.moves, 7);
    assert_eq!(sim.ants.len(), 2);
    assert!(!sim.should_continue());
}

#[test]
fn move_follows_the_only_exit() {
    let g = parse_map(&lines(&["A north=B", "B"]));
    let mut rng = rand::thread_rng();
    let mut ant = Ant { id: 0, position: "A".to_string() };
    assert!(move_ant(&mut ant, &g, &mut rng));
    assert_eq!(ant.position, "B");
}

#[test]
fn move_from_dead_end_or_absent_colony_fails() {
    let g = parse_map(&lines(&["A north=B", "B"]));
    let mut rng = rand::thread_rng();
    let mut ant = Ant { id: 0, position: "B".to_string() };
    assert!(!move_ant(&mut ant, &g, &mut rng));
    assert_eq!(ant.position, "B");
    let mut stray = Ant { id: 1, position: "Gone".to_string() };
    assert!(!move_ant(&mut stray, &g, &mut rng));
    assert_eq!(stray.position, "Gone");
}

#[test]
fn move_picks_some_recorded_exit() {
    let g = parse_map(&lines(&["A north=B east=C south=D", "B", "C", "D"]));
    let mut rng = rand::thread_rng();
    for _ in 0..50 {
        let mut ant = Ant { id: 0, position: "A".to_string() };
        assert!(move_ant(&mut ant, &g, &mut rng));
        assert!(ant.position == "B" || ant.position == "C" || ant.position == "D");
    }
}

#[test]
fn random_placement_assigns_ids_and_live_positions() {
    let g = parse_map(&lines(&["A north=B", "B south=C", "C west=A"]));
    let mut rng = rand::thread_rng();
    let sim = Sim::new_random(g, 5, 10_000, &mut rng);
    assert_eq!(sim.ants.len(), 5);
    for (i, ant) in sim.ants.iter().enumerate() {
        assert_eq!(ant.id, i);
        assert!(["A", "B", "C"].contains(&ant.position.as_str()));
    }
    assert_eq!(sim.moves, 0);
    assert_eq!(sim.destroyed.len(), 0);
}

#[test]
fn no_agents_on_an_empty_map_is_legal() {
    let g = Graph::new();
    let mut rng = rand::thread_rng();
    let mut sim = Sim::new_random(g, 0, 10_000, &mut rng);
    let events = sim.run(&mut rng);
    assert_eq!(events.len(), 0);
    assert_eq!(sim.ants.len(), 0);
    assert_eq!(sim.moves, 0);
}

#[test]
fn colony_and_agent_counts_never_grow() {
    let g = parse_map(&lines(&[
        "A north=B east=C",
        "B south=A west=C",
        "C north=A east=B",
        "D north=A",
    ]));
    let mut rng = rand::thread_rng();
    let mut sim = Sim::new_random(g, 6, 200, &mut rng);
    let mut last_colonies = sim.graph.colonies.len();
    let mut last_ants = sim.ants.len();
    while sim.should_continue() {
        sim.run_step(&mut rng);
        assert!(sim.graph.colonies.len() <= last_colonies);
        assert!(sim.ants.len() <= last_ants);
        last_colonies = sim.graph.colonies.len();
        last_ants = sim.ants.len();
        // no surviving connection points at a destroyed or absent colony
        for colony in &sim.graph.colonies {
            for conn in &colony.connections {
                assert!(sim.graph.find(&conn.dest).is_some());
                assert!(!sim.destroyed.contains(&conn.dest));
            }
        }
    }
    assert!(sim.moves <= 200);
}
