use inv_call_extract::graph::TypedGraph;

fn get_sample_graph() -> TypedGraph<u8> {
    let mut graph = TypedGraph::new_with_size(10);
    graph.add_edge(0, 1);
    graph.add_edge(1, 3);
    graph.add_edge(2, 0);
    graph.add_edge(3, 4);
    graph.add_edge(3, 6);
    graph.add_edge(4, 1);
    graph.add_edge(5, 4);
    graph.add_edge(6, 6);
    graph.add_edge(7, 8);
    graph.add_edge(9, 8);
    graph
}

#[test]
fn test_reachable() {
    let graph = get_sample_graph();
    assert_eq!(graph.get_reachable(&[0]), vec![0, 1, 3, 4, 6]);
    assert_eq!(graph.get_reachable(&[6]), vec![6]);
    assert_eq!(graph.get_reachable(&[5, 9]), vec![1, 3, 4, 5, 6, 8, 9])
}

#[test]
fn test_reachable_idempotent() {
    // Reaching again from the reachable set gives the same set, which also
    // contains every start node.
    let graph = get_sample_graph();
    let starts = vec![5usize, 9];
    let once = graph.get_reachable(&starts);
    let twice = graph.get_reachable(&once);
    assert_eq!(once, twice);
    for s in starts {
        assert!(once.contains(&s));
    }
}

#[test]
fn test_inv_involutive() {
    // Inverting twice restores the original edge multiset.
    let graph = get_sample_graph();
    let back = graph.inv().inv();
    assert_eq!(back.size(), graph.size());
    for v in 0..graph.size() {
        let mut orig: Vec<usize> = graph.next(v).clone();
        let mut twice: Vec<usize> = back.next(v).clone();
        orig.sort();
        twice.sort();
        assert_eq!(orig, twice);
    }
}

#[test]
fn test_projection_distinct_nodes() {
    // The projection has one node per distinct requested id, and the
    // mapping is ascending without duplicates.
    let graph = get_sample_graph();
    let (sub, mapping) = graph.projection(&[6, 3, 4, 3, 6, 6]);
    assert_eq!(sub.size(), 3);
    assert_eq!(mapping, vec![3, 4, 6]);
    // Surviving edges: 3 -> 4, 3 -> 6, 6 -> 6; dropped: 3 -> ... none else.
    assert_eq!(sub.next(0).clone(), vec![1, 2]);
    assert_eq!(sub.next(1).clone(), Vec::<usize>::new());
    assert_eq!(sub.next(2).clone(), vec![2]);
}

#[test]
fn test_reachable_components() {
    // Two disconnected components: a cycle a -> b -> c -> a and d -> e.
    let mut graph: TypedGraph<String> = TypedGraph::new();
    let a = graph.new_node("a".to_string());
    let b = graph.new_node("b".to_string());
    let c = graph.new_node("c".to_string());
    let d = graph.new_node("d".to_string());
    let e = graph.new_node("e".to_string());
    graph.add_edge(a, b);
    graph.add_edge(b, c);
    graph.add_edge(c, a);
    graph.add_edge(d, e);
    assert_eq!(graph.get_reachable(&[a]), vec![a, b, c]);
    assert_eq!(graph.get_reachable(&[d]), vec![d, e]);
}

#[test]
fn test_mapping_accessors() {
    let mut graph: TypedGraph<String> = TypedGraph::new();
    let a = graph.new_node("first".to_string());
    assert_eq!(graph.size(), 1);
    assert_eq!(graph.mapping()[a], "first".to_string());
    graph.mapping_mut()[a] = "renamed".to_string();
    assert_eq!(graph.mapping()[a], "renamed".to_string());
}

#[test]
fn test_projection_keeps_payloads() {
    let mut graph: TypedGraph<String> = TypedGraph::new();
    let a = graph.new_node("a".to_string());
    let b = graph.new_node("b".to_string());
    let c = graph.new_node("c".to_string());
    graph.add_edge(a, b);
    graph.add_edge(b, c);
    graph.add_edge(c, a);
    let (sub, mapping) = graph.projection(&[c, a]);
    assert_eq!(mapping, vec![a, c]);
    assert_eq!(sub.mapping().clone(), vec!["a".to_string(), "c".to_string()]);
    // Kept edges: c -> a; dropped: a -> b and b -> c.
    assert_eq!(sub.next(0).clone(), Vec::<usize>::new());
    assert_eq!(sub.next(1).clone(), vec![0]);
}

#[test]
fn test_map_payloads() {
    let mut graph: TypedGraph<String> = TypedGraph::new();
    let a = graph.new_node("a".to_string());
    let b = graph.new_node("bb".to_string());
    graph.add_edge(a, b);
    let mapped: TypedGraph<usize> = graph.map(|s: String| s.len());
    assert_eq!(mapped.size(), 2);
    assert_eq!(mapped.mapping().clone(), vec![1, 2]);
    assert_eq!(mapped.next(a).clone(), vec![b]);
}
