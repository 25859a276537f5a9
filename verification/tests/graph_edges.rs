use cave_paths::graph::Graph;
use cave_paths::vertex::Vertex;

fn v(name: &str) -> Vertex {
    Vertex::new(name.as_bytes().to_vec())
}

fn neighbour_names(g: &Graph, name: &str) -> Option<Vec<String>> {
    g.get_neighbours(&v(name)).map(|ns| {
        let mut out: Vec<String> = ns
            .iter()
            .map(|x| String::from_utf8(x.name.clone()).unwrap())
            .collect();
        out.sort();
        out
    })
}

#[test]
fn classification_follows_uppercase_letters() {
    assert!(v("b").is_small_cave());
    assert!(!v("b").is_big_cave());
    assert!(v("A").is_big_cave());
    assert!(!v("A").is_small_cave());
    assert!(v("start").is_small_cave());
    assert!(v("GF").is_big_cave());
    assert!(v("xQz").is_big_cave());
    assert!(v("").is_small_cave());
}

#[test]
fn classification_is_exclusive() {
    for name in ["a", "A", "start", "end", "GF", "im", ""] {
        let vertex = v(name);
        assert_ne!(vertex.is_small_cave(), vertex.is_big_cave());
    }
}

#[test]
fn vertex_equality_is_name_equality() {
    assert!(v("ax").equals(&v("ax")));
    assert!(!v("ax").equals(&v("aX")));
    assert!(!v("ax").equals(&v("axe")));
    assert!(v("").equals(&v("")));
}

#[test]
fn directed_edge_goes_one_way() {
    let mut g = Graph::new();
    g.add_directed_edge(v("a"), v("b"));
    assert_eq!(neighbour_names(&g, "a"), Some(vec!["b".to_string()]));
    assert_eq!(neighbour_names(&g, "b"), None);
}

#[test]
fn unknown_vertex_has_no_neighbours() {
    let g = Graph::new();
    assert!(g.get_neighbours(&v("nowhere")).is_none());
}

#[test]
fn directed_edge_twice_changes_nothing() {
    let mut g = Graph::new();
    g.add_directed_edge(v("a"), v("b"));
    g.add_directed_edge(v("a"), v("c"));
    let before = neighbour_names(&g, "a");
    g.add_directed_edge(v("a"), v("b"));
    assert_eq!(neighbour_names(&g, "a"), before);
    assert_eq!(before, Some(vec!["b".to_string(), "c".to_string()]));
}

#[test]
fn undirected_edge_twice_changes_nothing() {
    let mut g = Graph::new();
    g.add_undirected_edge(v("a"), v("b"));
    let a_before = neighbour_names(&g, "a");
    let b_before = neighbour_names(&g, "b");
    g.add_undirected_edge(v("a"), v("b"));
    assert_eq!(neighbour_names(&g, "a"), a_before);
    assert_eq!(neighbour_names(&g, "b"), b_before);
    assert_eq!(a_before, Some(vec!["b".to_string()]));
    assert_eq!(b_before, Some(vec!["a".to_string()]));
}

#[test]
fn undirected_edge_is_symmetric() {
    let mut g = Graph::new();
    g.add_undirected_edge(v("ax"), v("end"));
    let from_ax = neighbour_names(&g, "ax").unwrap();
    let from_end = neighbour_names(&g, "end").unwrap();
    assert!(from_ax.contains(&"end".to_string()));
    assert!(from_end.contains(&"ax".to_string()));
}

#[test]
fn self_loop_is_a_single_neighbour() {
    let mut g = Graph::new();
    g.add_undirected_edge(v("a"), v("a"));
    assert_eq!(neighbour_names(&g, "a"), Some(vec!["a".to_string()]));
}
