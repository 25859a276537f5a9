use cave_paths::graph::Graph;
use cave_paths::vertex::Vertex;

fn v(name: &str) -> Vertex {
    Vertex::new(name.as_bytes().to_vec())
}

fn name_of(x: &Vertex) -> String {
    String::from_utf8(x.name.clone()).unwrap()
}

fn diamond() -> Graph {
    let mut g = Graph::new();
    g.add_directed_edge(v("a"), v("b"));
    g.add_directed_edge(v("a"), v("c"));
    g.add_directed_edge(v("b"), v("d"));
    g.add_directed_edge(v("c"), v("d"));
    g
}

#[test]
fn depth_first_covers_reachable_vertices() {
    let g = diamond();
    let (order, finished) = g.depth_first_order(&v("a"), 100);
    assert!(finished);
    let visited: Vec<String> = order.iter().map(name_of).collect();
    assert_eq!(visited[0], "a");
    for reachable in ["a", "b", "c", "d"] {
        assert!(visited.contains(&reachable.to_string()));
    }
}

#[test]
fn breadth_first_covers_reachable_vertices() {
    let g = diamond();
    let (order, finished) = g.breadth_first_order(&v("a"), 100);
    assert!(finished);
    let visited: Vec<String> = order.iter().map(name_of).collect();
    assert_eq!(visited[0], "a");
    for reachable in ["a", "b", "c", "d"] {
        assert!(visited.contains(&reachable.to_string()));
    }
}

#[test]
fn depth_first_does_not_deduplicate() {
    // d is reachable along two routes and must be visited twice
    let g = diamond();
    let (order, finished) = g.depth_first_order(&v("a"), 100);
    assert!(finished);
    assert_eq!(order.len(), 5);
    let d_visits = order.iter().filter(|x| name_of(x) == "d").count();
    assert_eq!(d_visits, 2);
}

#[test]
fn breadth_first_does_not_deduplicate() {
    let g = diamond();
    let (order, finished) = g.breadth_first_order(&v("a"), 100);
    assert!(finished);
    assert_eq!(order.len(), 5);
    let d_visits = order.iter().filter(|x| name_of(x) == "d").count();
    assert_eq!(d_visits, 2);
}

#[test]
fn depth_first_budget_stops_cycles() {
    let mut g = Graph::new();
    g.add_undirected_edge(v("a"), v("b"));
    let (order, finished) = g.depth_first_order(&v("a"), 7);
    assert!(!finished);
    assert_eq!(order.len(), 7);
    assert_eq!(name_of(&order[0]), "a");
}

#[test]
fn breadth_first_budget_stops_cycles() {
    let mut g = Graph::new();
    g.add_undirected_edge(v("a"), v("b"));
    let (order, finished) = g.breadth_first_order(&v("a"), 7);
    assert!(!finished);
    assert_eq!(order.len(), 7);
    assert_eq!(name_of(&order[0]), "a");
}

#[test]
fn walk_from_isolated_vertex_visits_only_it() {
    let g = Graph::new();
    let (order, finished) = g.depth_first_order(&v("lone"), 10);
    assert!(finished);
    assert_eq!(order.len(), 1);
    assert_eq!(name_of(&order[0]), "lone");
    let (border, bfinished) = g.breadth_first_order(&v("lone"), 10);
    assert!(bfinished);
    assert_eq!(border.len(), 1);
}

#[test]
fn walk_with_zero_budget_visits_nothing() {
    let g = diamond();
    let (order, finished) = g.depth_first_order(&v("a"), 0);
    assert!(!finished);
    assert_eq!(order.len(), 0);
}
