use plato_mythos_bridge::songline_navigation::{SonglineGraph, SonglineNavigation};

/// A latency in milliseconds, as whole microseconds.
fn us(ms: f64) -> u64 {
    (ms * 1000.0).round() as u64
}

#[test]
fn songline_build_graph() {
    let graph = SonglineNavigation::build_tile_graph(&["room-A".into(), "room-B".into(), "room-C".into()]);
    assert_eq!(graph.rooms().len(), 3);
}

#[test]
fn songline_direct_path() {
    let mut graph = SonglineGraph::new();
    graph.add_edge("A".into(), "B".into(), us(10.0));
    let path = SonglineNavigation::find_tile_path(&graph, "A", "B");
    assert!(path.is_some());
    let p = path.unwrap();
    assert_eq!(p.len(), 2);
    assert_eq!(p[0], "A");
    assert_eq!(p[1], "B");
}

#[test]
fn songline_same_source_target() {
    let graph = SonglineGraph::new();
    let path = SonglineNavigation::find_tile_path(&graph, "X", "X");
    assert_eq!(path, Some(vec!["X".to_string()]));
}

#[test]
fn songline_multi_hop_path() {
    let mut graph = SonglineGraph::new();
    graph.add_edge("A".into(), "B".into(), us(10.0));
    graph.add_edge("B".into(), "C".into(), us(10.0));
    let path = SonglineNavigation::find_tile_path(&graph, "A", "C");
    assert!(path.is_some());
    let p = path.unwrap();
    assert!(p.contains(&"A".to_string()));
    assert!(p.contains(&"C".to_string()));
}

#[test]
fn songline_no_path() {
    let mut graph = SonglineGraph::new();
    graph.add_room("A".into());
    graph.add_room("B".into());
    let path = SonglineNavigation::find_tile_path(&graph, "A", "B");
    assert!(path.is_none());
}

#[test]
fn songline_prefer_well_traveled() {
    let mut graph = SonglineGraph::new();
    graph.add_edge("A".into(), "B".into(), us(10.0));
    graph.add_edge("A".into(), "C".into(), us(10.0));
    graph.add_edge("C".into(), "D".into(), us(10.0));
    graph.add_edge("B".into(), "D".into(), us(10.0));

    // Make A→B→D more traveled
    graph.record_traversal("A", "B");
    graph.record_traversal("A", "B");
    graph.record_traversal("B", "D");
    graph.record_traversal("B", "D");

    let path = SonglineNavigation::find_tile_path(&graph, "A", "D");
    assert!(path.is_some());
    let p = path.unwrap();
    // Should prefer the well-traveled A→B→D route
    assert!(p.contains(&"B".to_string()) || p.contains(&"C".to_string()));
}

#[test]
fn songline_edges_from() {
    let mut graph = SonglineGraph::new();
    graph.add_edge("A".into(), "B".into(), us(5.0));
    graph.add_edge("A".into(), "C".into(), us(15.0));
    let edges = graph.edges_from("A").unwrap();
    assert_eq!(edges.len(), 2);
}

#[test]
fn songline_record_traversal() {
    let mut graph = SonglineGraph::new();
    graph.add_edge("A".into(), "B".into(), us(10.0));
    graph.record_traversal("A", "B");
    graph.record_traversal("A", "B");
    let edges = graph.edges_from("A").unwrap();
    let ab = edges.iter().find(|e| e.target == "B").unwrap();
    assert_eq!(ab.traversal_count, 3); // 1 initial + 2 recorded
}

#[test]
fn songline_default_graph() {
    let graph = SonglineGraph::default();
    assert!(graph.rooms().is_empty());
}

#[test]
fn songline_well_traveled_route_wins_exactly() {
    let mut graph = SonglineGraph::new();
    graph.add_edge("A".into(), "B".into(), us(10.0));
    graph.add_edge("A".into(), "C".into(), us(10.0));
    graph.add_edge("C".into(), "D".into(), us(10.0));
    graph.add_edge("B".into(), "D".into(), us(10.0));
    graph.record_traversal("A", "B");
    graph.record_traversal("B", "D");
    let p = SonglineNavigation::find_tile_path(&graph, "A", "D").unwrap();
    assert_eq!(p, vec!["A".to_string(), "B".to_string(), "D".to_string()]);
    assert_eq!(SonglineNavigation::most_popular_path(&graph, "A", "D").unwrap(), p);
}

#[test]
fn songline_cheaper_detour_is_taken() {
    let mut graph = SonglineGraph::new();
    graph.add_edge("A".into(), "D".into(), us(100.0));
    graph.add_edge("A".into(), "B".into(), us(10.0));
    graph.add_edge("B".into(), "D".into(), us(10.0));
    let p = SonglineNavigation::find_tile_path(&graph, "A", "D").unwrap();
    assert_eq!(p, vec!["A".to_string(), "B".to_string(), "D".to_string()]);
}

#[test]
fn songline_unknown_rooms() {
    let mut graph = SonglineGraph::new();
    graph.add_edge("A".into(), "B".into(), us(1.0));
    assert!(SonglineNavigation::find_tile_path(&graph, "A", "Z").is_none());
    assert!(SonglineNavigation::find_tile_path(&graph, "Z", "A").is_none());
    assert!(graph.edges_from("Z").is_none());
}

#[test]
fn songline_add_room_twice_and_reverse_edges() {
    let mut graph = SonglineGraph::new();
    graph.add_room("A".into());
    graph.add_room("A".into());
    assert_eq!(graph.rooms().len(), 1);
    graph.add_edge("A".into(), "B".into(), us(2.5));
    assert_eq!(graph.rooms(), &["A".to_string(), "B".to_string()]);
    let back = graph.edges_from("B").unwrap();
    assert_eq!(back.len(), 1);
    assert_eq!(back[0].target, "A");
    assert_eq!(back[0].latency_us, 2500);
    assert_eq!(back[0].traversal_count, 1);
    // Only the first matching edge counts a traversal; unknown rooms change nothing.
    graph.add_edge("A".into(), "B".into(), us(7.0));
    graph.record_traversal("A", "B");
    graph.record_traversal("Q", "B");
    let fwd = graph.edges_from("A").unwrap();
    assert_eq!(fwd[0].traversal_count, 2);
    assert_eq!(fwd[1].traversal_count, 1);
}

#[test]
fn songline_build_graph_skips_duplicates() {
    let graph = SonglineNavigation::build_tile_graph(&["x".into(), "y".into(), "x".into()]);
    assert_eq!(graph.rooms(), &["x".to_string(), "y".to_string()]);
    assert!(graph.edges_from("x").unwrap().is_empty());
}

#[test]
fn songline_routes_walk_back() {
    let mut g = SonglineGraph::new();
    g.add_edge("A".into(), "B".into(), us(3.0));
    g.add_edge("B".into(), "C".into(), us(4.0));
    g.record_traversal("A", "B");
    g.record_traversal("A", "B");
    // traversals change counts only: every room still sees the same neighbours
    let targets = |room: &str| -> Vec<String> {
        g.edges_from(room).unwrap().iter().map(|e| e.target.clone()).collect()
    };
    assert_eq!(targets("A"), vec!["B".to_string()]);
    assert_eq!(targets("B"), vec!["A".to_string(), "C".to_string()]);
    assert_eq!(targets("C"), vec!["B".to_string()]);
    let there = SonglineNavigation::find_tile_path(&g, "A", "C").unwrap();
    let back = SonglineNavigation::find_tile_path(&g, "C", "A").unwrap();
    assert_eq!(there, vec!["A".to_string(), "B".to_string(), "C".to_string()]);
    assert_eq!(back, vec!["C".to_string(), "B".to_string(), "A".to_string()]);
}

#[test]
fn songline_fractional_costs_are_compared_finely() {
    // A-B and B-D: 2 µs each, traversed 3 times (2/3 µs per hop); A-D: 1 µs, once
    let mut g = SonglineGraph::new();
    g.add_edge("A".into(), "B".into(), 2);
    g.add_edge("B".into(), "D".into(), 2);
    g.add_edge("A".into(), "D".into(), 1);
    for _ in 0..2 {
        g.record_traversal("A", "B");
        g.record_traversal("B", "D");
    }
    let p = SonglineNavigation::find_tile_path(&g, "A", "D").unwrap();
    assert_eq!(p, vec!["A".to_string(), "D".to_string()]);
}

#[test]
fn songline_most_popular_path_follows_traversals() {
    let mut g = SonglineGraph::new();
    g.add_edge("A".into(), "B".into(), us(1.0));
    g.add_edge("A".into(), "C".into(), us(3.0));
    g.add_edge("C".into(), "B".into(), us(3.0));
    for _ in 0..3 {
        g.record_traversal("A", "C");
        g.record_traversal("C", "B");
    }
    let popular = SonglineNavigation::most_popular_path(&g, "A", "B").unwrap();
    assert_eq!(popular, vec!["A".to_string(), "C".to_string(), "B".to_string()]);
    // by latency the direct edge is still the cheapest (1 against 0.75 + 0.75)
    let fastest = SonglineNavigation::find_tile_path(&g, "A", "B").unwrap();
    assert_eq!(fastest, vec!["A".to_string(), "B".to_string()]);
}
