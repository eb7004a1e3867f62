use std::collections::HashSet;

use inv_call_extract::graph::TypedGraph;
use inv_call_extract::linker::graph_link::link_all_graphs;
use inv_call_extract::linker::pass::{
    CutDegPass, Pass, RegexEdgeGenPass, RemoveEdgesPass, RemoveNodePass, ReparentGraphPass,
    ReverseGraphPass, SubgraphExtractionPass, UniqueEdgesPass, run_pipeline,
};

fn label_set(graph: &TypedGraph<String>) -> HashSet<String> {
    graph.mapping().iter().cloned().collect()
}

fn sorted_next(graph: &TypedGraph<String>, v: usize) -> Vec<usize> {
    let mut row = graph.next(v).clone();
    row.sort();
    row
}

#[test]
fn test_remove_nodes() {
    let mut graph: TypedGraph<String> = TypedGraph::new();
    graph.new_node("aba".to_string());
    graph.new_node("abc".to_string());
    graph.new_node("123".to_string());
    graph.new_node("xy1".to_string());

    let pass = RemoveNodePass::new_from_str("^\\d+$ (\\w).\\1").unwrap();
    pass.run_pass(&mut graph);

    assert_eq!(
        label_set(&graph),
        ["abc".to_string(), "xy1".to_string()].iter().cloned().collect::<HashSet<_>>()
    );
}

#[test]
fn test_unique_edges() {
    let mut graph: TypedGraph<String> = TypedGraph::new();
    let v = [
        graph.new_node("1".to_string()),
        graph.new_node("2".to_string()),
        graph.new_node("3".to_string()),
    ];

    // 0 -> (1, 2)
    // 1 -> (0, 2)
    // 2 -> (2, 1)
    let mut adj_matrix = vec![vec![0; 3]; 3];
    adj_matrix[0][1] = 1;
    adj_matrix[0][2] = 1;
    adj_matrix[1][0] = 1;
    adj_matrix[1][2] = 1;
    adj_matrix[2][1] = 1;
    adj_matrix[2][2] = 1;

    graph.add_edge(v[0], v[2]);
    graph.add_edge(v[0], v[2]);
    graph.add_edge(v[0], v[1]);
    graph.add_edge(v[0], v[2]);

    graph.add_edge(v[1], v[0]);
    graph.add_edge(v[1], v[2]);

    graph.add_edge(v[2], v[2]);
    graph.add_edge(v[2], v[1]);
    graph.add_edge(v[2], v[2]);
    graph.add_edge(v[2], v[1]);

    let pass = UniqueEdgesPass::default();
    pass.run_pass(&mut graph);
    for i in 0..3 {
        for j in 0..3 {
            let count = graph.next(v[i]).iter().filter(|&&x| x == v[j]).count();
            assert_eq!(adj_matrix[i][j], count);
        }
    }
}

#[test]
fn test_unique_edges_idempotent() {
    // Running the deduplication twice changes nothing after the first run.
    let mut graph: TypedGraph<String> = TypedGraph::new();
    let a = graph.new_node("a".to_string());
    let b = graph.new_node("b".to_string());
    graph.add_edge(a, b);
    graph.add_edge(a, b);
    graph.add_edge(a, a);
    graph.add_edge(b, a);

    let pass = UniqueEdgesPass::default();
    pass.run_pass(&mut graph);
    let once: Vec<Vec<usize>> = (0..graph.size()).map(|v| graph.next(v).clone()).collect();
    pass.run_pass(&mut graph);
    let twice: Vec<Vec<usize>> = (0..graph.size()).map(|v| graph.next(v).clone()).collect();
    assert_eq!(once, twice);
    assert_eq!(once, vec![vec![b, a], vec![a]]);
}

#[test]
fn test_reparent() {
    let mut graph: TypedGraph<String> = TypedGraph::new();
    let v = [
        graph.new_node("0".to_string()),
        graph.new_node("1".to_string()),
        graph.new_node("reparent1".to_string()),
        graph.new_node("reparent2".to_string()),
        graph.new_node("4".to_string()),
    ];
    let edges = [(0, 1), (0, 2), (0, 3), (2, 4), (3, 1), (3, 2)];
    for &(a, b) in &edges {
        graph.add_edge(v[a], v[b]);
    }

    let mut orig_graph: TypedGraph<String> = TypedGraph::new();
    for name in ["0", "1", "reparent1", "reparent2", "4"] {
        orig_graph.new_node(name.to_string());
    }
    for &(a, b) in &edges {
        orig_graph.add_edge(v[a], v[b]);
    }

    let pass = ReparentGraphPass::new_from_str("reparent.*");
    pass.run_pass(&mut graph);

    // From reparent1
    orig_graph.add_edge(v[0], v[4]);
    orig_graph.add_edge(v[3], v[4]);
    // From reparent2
    orig_graph.add_edge(v[0], v[1]);
    orig_graph.add_edge(v[0], v[2]);

    for node in v {
        assert_eq!(sorted_next(&orig_graph, node), sorted_next(&graph, node));
    }
}

#[test]
fn test_reparent_bypass_edge() {
    // On 0 -> 1, 0 -> r, r -> 2 with a pattern matching r, the result keeps
    // the three original edges and gains the bypass edge 0 -> 2.
    let mut graph: TypedGraph<String> = TypedGraph::new();
    let n0 = graph.new_node("0".to_string());
    let n1 = graph.new_node("1".to_string());
    let r = graph.new_node("r".to_string());
    let n2 = graph.new_node("2".to_string());
    graph.add_edge(n0, n1);
    graph.add_edge(n0, r);
    graph.add_edge(r, n2);

    let pass = ReparentGraphPass::new_from_str("^r$");
    pass.run_pass(&mut graph);

    assert_eq!(sorted_next(&graph, n0), vec![n1, r, n2]);
    assert_eq!(sorted_next(&graph, r), vec![n2]);
    assert_eq!(sorted_next(&graph, n1), Vec::<usize>::new());
    assert_eq!(sorted_next(&graph, n2), Vec::<usize>::new());
}

#[test]
fn test_remove_edges() {
    let mut graph: TypedGraph<String> = TypedGraph::new();
    let v = [
        graph.new_node("a_1".to_string()),
        graph.new_node("a_2".to_string()),
        graph.new_node("b_2".to_string()),
        graph.new_node("x".to_string()),
        graph.new_node("y".to_string()),
    ];
    for &i in &v {
        graph.add_edge(v[0], i);
    }
    let mut pass = RemoveEdgesPass::default();
    assert!(pass.add_rule_from_str("a_(.*) b.*"));
    assert!(pass.add_rule_from_str(r"a_(.*) a_(?!\1)"));
    assert!(pass.add_rule_from_str("^a.* [a-x]$"));

    pass.run_pass(&mut graph);

    // need a_1 -> a_1, a_1 -> x
    let left: HashSet<String> =
        graph.next(v[0]).iter().map(|&t| graph.mapping()[t].clone()).collect();
    assert_eq!(left, ["a_1".to_string(), "y".to_string()].iter().cloned().collect::<HashSet<_>>());
}

#[test]
fn test_remove_edges_one_rule() {
    // The rule ("a_.*", "b.*") removes a_1 -> b_2 but keeps a_1 -> x.
    let mut graph: TypedGraph<String> = TypedGraph::new();
    let a1 = graph.new_node("a_1".to_string());
    let b2 = graph.new_node("b_2".to_string());
    let x = graph.new_node("x".to_string());
    graph.add_edge(a1, b2);
    graph.add_edge(a1, x);

    let mut pass = RemoveEdgesPass::default();
    assert!(pass.add_rule_from_str("a_.* b.*"));
    pass.run_pass(&mut graph);

    assert_eq!(graph.next(a1).clone(), vec![x]);
}

#[test]
fn test_cut_deg_incoming() {
    // With max_incoming = 0, a node with one incoming edge goes, a node
    // with none survives.
    let mut graph: TypedGraph<String> = TypedGraph::new();
    let x = graph.new_node("x".to_string());
    let y = graph.new_node("y".to_string());
    graph.add_edge(y, x);

    let pass = CutDegPass::new(Some(0), None);
    pass.run_pass(&mut graph);

    assert_eq!(graph.size(), 1);
    assert_eq!(graph.mapping()[0], "y".to_string());
}

#[test]
fn test_cut_deg_name() {
    let pass = CutDegPass::new(Some(2), Some(7));
    assert_eq!(pass.name(), "degree filtering(incoming < 3, outgoing < 8)".to_string());
}

#[test]
fn test_reverse_graph() {
    let mut graph: TypedGraph<String> = TypedGraph::new();
    let a = graph.new_node("a".to_string());
    let b = graph.new_node("b".to_string());
    let c = graph.new_node("c".to_string());
    graph.add_edge(a, b);
    graph.add_edge(a, c);
    graph.add_edge(b, c);

    let pass = ReverseGraphPass::default();
    pass.run_pass(&mut graph);

    assert_eq!(sorted_next(&graph, a), Vec::<usize>::new());
    assert_eq!(sorted_next(&graph, b), vec![a]);
    assert_eq!(sorted_next(&graph, c), vec![a, b]);
}

#[test]
fn test_subgraph_extraction() {
    let mut graph: TypedGraph<String> = TypedGraph::new();
    let a = graph.new_node("a".to_string());
    let b = graph.new_node("b".to_string());
    let c = graph.new_node("c".to_string());
    let d = graph.new_node("d".to_string());
    graph.add_edge(a, b);
    graph.add_edge(c, d);

    let pass = SubgraphExtractionPass::new_from_str("a");
    pass.run_pass(&mut graph);

    assert_eq!(graph.size(), 2);
    assert_eq!(graph.mapping().clone(), vec!["a".to_string(), "b".to_string()]);
    assert_eq!(graph.next(0).clone(), vec![1]);
}

#[test]
fn test_regex_edge_gen() {
    let mut graph: TypedGraph<String> = TypedGraph::new();
    let main = graph.new_node("main".to_string());
    let helper_a = graph.new_node("helper_a".to_string());
    let helper_b = graph.new_node("helper_b".to_string());

    // Every helper gains an edge from main, and main gains an edge towards
    // helper_b; unresolved names are skipped.
    let pass = RegexEdgeGenPass::new_from_str(
        "\"^helper\" <- main\n\"^main$\" -> helper_b missing_name\nno arrow here\n",
    );
    pass.run_pass(&mut graph);

    assert_eq!(sorted_next(&graph, main), vec![helper_a, helper_b, helper_b]);
    assert_eq!(sorted_next(&graph, helper_a), Vec::<usize>::new());
    assert_eq!(sorted_next(&graph, helper_b), Vec::<usize>::new());
}

#[test]
fn test_remove_node_pass_rejects_bad_pattern() {
    assert!(RemoveNodePass::new_from_str("valid.* (unclosed").is_none());
}

#[test]
fn test_pipeline_runs_in_order() {
    // A pipeline of reverse followed by edge deduplication.
    let mut graph: TypedGraph<String> = TypedGraph::new();
    let a = graph.new_node("a".to_string());
    let b = graph.new_node("b".to_string());
    graph.add_edge(a, b);
    graph.add_edge(a, b);

    let passes = vec![
        Pass::ReverseGraph(ReverseGraphPass::default()),
        Pass::UniqueEdges(UniqueEdgesPass::default()),
    ];
    let mut graphs = vec![graph];
    run_pipeline(&passes, &mut graphs);

    assert_eq!(graphs[0].next(b).clone(), vec![a]);
    assert_eq!(graphs[0].next(a).clone(), Vec::<usize>::new());
}

#[test]
fn test_pass_names() {
    assert_eq!(RemoveNodePass::new_from_str("x").unwrap().name(), "node terminator");
    assert_eq!(RegexEdgeGenPass::new().name(), "regex edge generator");
    assert_eq!(UniqueEdgesPass::default().name(), "decouple edges");
    assert_eq!(SubgraphExtractionPass::new_from_str("t").name(), "subgraph extraction");
    assert_eq!(ReverseGraphPass::default().name(), "reverse graph");
    assert_eq!(ReparentGraphPass::new_from_str("x").name(), "reparent nodes");
    assert_eq!(RemoveEdgesPass::default().name(), "remove edges");
}

#[test]
fn test_link_all_graphs() {
    // First graph: a -> b twice, b -> c once.
    let mut g1: TypedGraph<String> = TypedGraph::new();
    let a1 = g1.new_node("a".to_string());
    let b1 = g1.new_node("b".to_string());
    let c1 = g1.new_node("c".to_string());
    g1.add_edge(a1, b1);
    g1.add_edge(a1, b1);
    g1.add_edge(b1, c1);

    // Second graph: b -> c once more, d -> a once.
    let mut g2: TypedGraph<String> = TypedGraph::new();
    let b2 = g2.new_node("b".to_string());
    let c2 = g2.new_node("c".to_string());
    let d2 = g2.new_node("d".to_string());
    g2.add_edge(b2, c2);
    g2.add_edge(d2, b2);
    g2.add_edge(d2, c2);

    let linked = link_all_graphs(&vec![g1, g2]);

    // Nodes: distinct labels in first-appearance order.
    assert_eq!(
        linked.mapping().clone(),
        vec!["a".to_string(), "b".to_string(), "c".to_string(), "d".to_string()]
    );
    // Edges: one per input edge, parallel edges preserved and summed.
    let count = |u: usize, v: usize| linked.next(u).iter().filter(|&&x| x == v).count();
    assert_eq!(count(0, 1), 2);
    assert_eq!(count(1, 2), 2);
    assert_eq!(count(3, 1), 1);
    assert_eq!(count(3, 2), 1);
    let total: usize = (0..linked.size()).map(|v| linked.next(v).len()).sum();
    assert_eq!(total, 6);
}
