use cave_paths::graph::Graph;
use cave_paths::search::TraversalState;
use cave_paths::vertex::Vertex;

fn v(name: &str) -> Vertex {
    Vertex::new(name.as_bytes().to_vec())
}

fn name_of(x: &Vertex) -> String {
    String::from_utf8(x.name.clone()).unwrap()
}

fn rendered(paths: &Vec<Vec<Vertex>>) -> Vec<String> {
    let mut out: Vec<String> = paths
        .iter()
        .map(|p| p.iter().map(name_of).collect::<Vec<String>>().join(","))
        .collect();
    out.sort();
    out
}

fn example_caves() -> Graph {
    let mut g = Graph::new();
    g.add_undirected_edge(v("start"), v("A"));
    g.add_undirected_edge(v("start"), v("b"));
    g.add_undirected_edge(v("A"), v("c"));
    g.add_undirected_edge(v("A"), v("b"));
    g.add_undirected_edge(v("A"), v("end"));
    g.add_undirected_edge(v("b"), v("d"));
    g.add_undirected_edge(v("b"), v("end"));
    g
}

#[test]
fn example_caves_have_ten_paths() {
    let g = example_caves();
    let (count, paths) = g.enumerate(&v("start"), &v("end"), 20).unwrap();
    assert_eq!(count, 10);
    assert_eq!(paths.len(), 10);
    let mut expected = vec![
        "start,A,b,A,c,A,end",
        "start,A,b,A,end",
        "start,A,b,end",
        "start,A,c,A,b,A,end",
        "start,A,c,A,b,end",
        "start,A,c,A,end",
        "start,A,end",
        "start,b,A,c,A,end",
        "start,b,A,end",
        "start,b,end",
    ];
    expected.sort();
    assert_eq!(
        rendered(&paths),
        expected.iter().map(|s| s.to_string()).collect::<Vec<String>>()
    );
}

#[test]
fn every_reported_path_obeys_the_rule() {
    // the reported count matches the number of distinct sequences, each runs
    // from start to end, and no small cave stands on a path twice
    let g = example_caves();
    let (count, paths) = g.enumerate(&v("start"), &v("end"), 20).unwrap();
    assert_eq!(count, paths.len());
    let distinct = rendered(&paths);
    for w in distinct.windows(2) {
        assert_ne!(w[0], w[1]);
    }
    for p in &paths {
        assert_eq!(name_of(p.first().unwrap()), "start");
        assert_eq!(name_of(p.last().unwrap()), "end");
        for (i, x) in p.iter().enumerate() {
            if x.is_small_cave() {
                let repeats = p.iter().filter(|y| y.equals(x)).count();
                assert_eq!(repeats, 1, "small cave repeated at step {}", i);
            }
        }
    }
}

#[test]
fn absent_endpoints_yield_zero_paths() {
    let g = Graph::new();
    let (count, paths) = g.enumerate(&v("s"), &v("e"), 10).unwrap();
    assert_eq!(count, 0);
    assert!(paths.is_empty());
}

#[test]
fn start_equal_to_end_is_one_trivial_path() {
    let g = Graph::new();
    let (count, paths) = g.enumerate(&v("s"), &v("s"), 10).unwrap();
    assert_eq!(count, 1);
    assert_eq!(rendered(&paths), vec!["s".to_string()]);
}

#[test]
fn irrelevant_big_cycle_still_terminates() {
    // two big caves in a cycle, the destination unreachable: the start vertex
    // is never re-enterable, so the search ends with no path found
    let mut g = Graph::new();
    g.add_undirected_edge(v("QQ"), v("ZZ"));
    let (count, paths) = g.enumerate(&v("QQ"), &v("end"), 10).unwrap();
    assert_eq!(count, 0);
    assert!(paths.is_empty());
}

#[test]
fn big_cycle_beyond_start_aborts_at_the_limit() {
    // two big caves in a cycle reachable past the start admit ever longer
    // walks; the depth limit cuts the search short
    let mut g = Graph::new();
    g.add_undirected_edge(v("start"), v("AA"));
    g.add_undirected_edge(v("AA"), v("BB"));
    assert!(g.enumerate(&v("start"), &v("end"), 8).is_none());
}

#[test]
fn big_cave_may_be_revisited() {
    let mut g = Graph::new();
    g.add_directed_edge(v("start"), v("A"));
    g.add_directed_edge(v("A"), v("c"));
    g.add_directed_edge(v("c"), v("A"));
    g.add_directed_edge(v("A"), v("end"));
    let (count, paths) = g.enumerate(&v("start"), &v("end"), 20).unwrap();
    assert_eq!(count, 2);
    assert_eq!(
        rendered(&paths),
        vec!["start,A,c,A,end".to_string(), "start,A,end".to_string()]
    );
}

#[test]
fn small_cave_may_not_be_revisited() {
    let mut g = Graph::new();
    g.add_directed_edge(v("start"), v("a"));
    g.add_directed_edge(v("a"), v("b"));
    g.add_directed_edge(v("b"), v("a"));
    g.add_directed_edge(v("a"), v("end"));
    let (count, paths) = g.enumerate(&v("start"), &v("end"), 20).unwrap();
    assert_eq!(count, 1);
    assert_eq!(rendered(&paths), vec!["start,a,end".to_string()]);
}

#[test]
fn directed_edges_give_no_return_path() {
    let mut g = Graph::new();
    g.add_directed_edge(v("start"), v("end"));
    let (count, _) = g.enumerate(&v("start"), &v("end"), 10).unwrap();
    assert_eq!(count, 1);
    let (back, _) = g.enumerate(&v("end"), &v("start"), 10).unwrap();
    assert_eq!(back, 0);
}

#[test]
fn traversal_state_counts_and_unwinds() {
    let mut st = TraversalState::new();
    st.record_visit(&v("A"));
    st.record_visit(&v("b"));
    st.record_visit(&v("A"));
    assert_eq!(st.count_of(&v("A")), 2);
    assert_eq!(st.count_of(&v("b")), 1);
    assert_eq!(st.count_of(&v("c")), 0);
    st.unrecord_visit(&v("A"));
    assert_eq!(st.count_of(&v("A")), 1);
    st.unrecord_visit(&v("b"));
    st.unrecord_visit(&v("A"));
    assert!(st.path.is_empty());
    assert!(st.visit_counts.is_empty());
}

#[test]
fn search_leaves_no_traversal_state_behind() {
    // after a full search the path-so-far is popped back to empty and no
    // visit-count entry is leaked
    let g = example_caves();
    let mut st = TraversalState::new();
    let mut found: Vec<Vec<Vertex>> = Vec::new();
    let completed = g.search_paths(&v("start"), &v("end"), &v("start"), &mut st, &mut found, 20);
    assert!(completed);
    assert_eq!(found.len(), 10);
    assert!(st.path.is_empty());
    assert!(st.visit_counts.is_empty());
}

#[test]
fn zero_depth_limit_always_aborts() {
    let g = Graph::new();
    assert!(g.enumerate(&v("s"), &v("e"), 0).is_none());
}
