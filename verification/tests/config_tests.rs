use inv_call_extract::graph::TypedGraph;
use inv_call_extract::linker::config::{
    build_pass, parse_config_line, ConfigError, PassKind, PassRequest,
};
use inv_call_extract::linker::conversion::{from_graph, to_graph};
use inv_call_extract::linker::object_file::{ObjectFile, SymPtr};
use inv_call_extract::linker::pass::Pass;
use inv_call_extract::linker::symbol::{FCall, Function, PtsTo};
use inv_call_extract::linker::text::{parse_usize, split_lines, split_whitespace_owned};

#[test]
fn test_parse_config_line_kinds() {
    match parse_config_line("term_nodes rules.txt") {
        Ok(PassRequest::NeedsData(PassKind::TermNodes, path)) => {
            assert_eq!(path, "rules.txt".to_string())
        },
        other => panic!("unexpected parse: {:?}", other),
    }
    match parse_config_line("  extract_subgraph tags.txt ") {
        Ok(PassRequest::NeedsData(PassKind::ExtractSubgraph, path)) => {
            assert_eq!(path, "tags.txt".to_string())
        },
        other => panic!("unexpected parse: {:?}", other),
    }
    assert!(matches!(parse_config_line("unique_edges"), Ok(PassRequest::UniqueEdges)));
    assert!(matches!(parse_config_line("reverse"), Ok(PassRequest::Reverse)));
}

#[test]
fn test_parse_config_line_cut_deg() {
    match parse_config_line("cut_deg +3 -5") {
        Ok(PassRequest::CutDeg(incoming, outgoing)) => {
            assert_eq!(incoming, Some(3));
            assert_eq!(outgoing, Some(5));
        },
        other => panic!("unexpected parse: {:?}", other),
    }
    // A later argument overrides an earlier one.
    match parse_config_line("cut_deg +3 +4") {
        Ok(PassRequest::CutDeg(incoming, outgoing)) => {
            assert_eq!(incoming, Some(4));
            assert_eq!(outgoing, None);
        },
        other => panic!("unexpected parse: {:?}", other),
    }
}

#[test]
fn test_parse_config_line_errors() {
    assert_eq!(parse_config_line("").unwrap_err(), ConfigError::EmptyLine);
    assert_eq!(parse_config_line("frobnicate x").unwrap_err(), ConfigError::UnknownPass);
    assert_eq!(parse_config_line("term_nodes").unwrap_err(), ConfigError::MissingArgument);
    assert_eq!(parse_config_line("cut_deg *3").unwrap_err(), ConfigError::BadPrefix);
    assert_eq!(parse_config_line("cut_deg +x").unwrap_err(), ConfigError::BadNumber);
    assert_eq!(parse_config_line("cut_deg +").unwrap_err(), ConfigError::BadNumber);
}

#[test]
fn test_build_pass() {
    assert!(matches!(build_pass(PassKind::TermNodes, "^a.*$"), Ok(Pass::RemoveNode(_))));
    assert_eq!(build_pass(PassKind::TermNodes, "(unclosed").unwrap_err(), ConfigError::BadPattern);
    assert!(matches!(build_pass(PassKind::ExtractSubgraph, "main"), Ok(
        Pass::SubgraphExtraction(_)
    )));
    assert!(matches!(build_pass(PassKind::Reparent, "r.*"), Ok(Pass::Reparent(_))));
    assert!(matches!(build_pass(PassKind::RemoveEdges, "a.* b.*"), Ok(Pass::RemoveEdges(_))));
    assert_eq!(
        build_pass(PassKind::RemoveEdges, "no_space_here").unwrap_err(),
        ConfigError::BadPattern
    );
    assert!(matches!(build_pass(PassKind::RegexEdgeGen, "\"a\" -> b"), Ok(Pass::RegexEdgeGen(_))));
}

#[test]
fn test_parse_usize() {
    assert_eq!(parse_usize("0"), Some(0));
    assert_eq!(parse_usize("1234"), Some(1234));
    assert_eq!(parse_usize(""), None);
    assert_eq!(parse_usize("12a"), None);
    assert_eq!(parse_usize("99999999999999999999999999999999999"), None);
}

#[test]
fn test_split_helpers() {
    assert_eq!(
        split_whitespace_owned("  one\ttwo \n three "),
        vec!["one".to_string(), "two".to_string(), "three".to_string()]
    );
    assert_eq!(split_whitespace_owned(""), Vec::<String>::new());
    assert_eq!(
        split_lines("a\r\nb\n\nc"),
        vec!["a".to_string(), "b".to_string(), "".to_string(), "c".to_string()]
    );
    assert_eq!(split_lines("x\n"), vec!["x".to_string()]);
}

#[test]
fn test_object_file_to_graph() {
    let mut of = ObjectFile::new();
    of.add_function(Function::new("main".to_string(), false));
    of.add_function(Function::new("helper".to_string(), false));
    of.add_function(Function::new("leaf".to_string(), true));
    of.add_points_to(PtsTo::new(vec![SymPtr::F(1), SymPtr::F(2)]));
    // main calls helper directly, and helper calls through the set.
    of.add_fcall(FCall::new_with_callsite(SymPtr::F(1), vec![], SymPtr::F(0)));
    of.add_fcall(FCall::new_with_callsite(SymPtr::P(0), vec![], SymPtr::F(1)));
    // An orphan call contributes no edge.
    of.add_fcall(FCall::new(SymPtr::F(2), vec![]));

    let g = to_graph(&of);
    assert_eq!(g.size(), 3);
    assert_eq!(
        g.mapping().clone(),
        vec!["main".to_string(), "helper".to_string(), "leaf".to_string()]
    );
    assert_eq!(g.next(0).clone(), vec![1]);
    assert_eq!(g.next(1).clone(), vec![1, 2]);
    assert_eq!(g.next(2).clone(), Vec::<usize>::new());
}

#[test]
fn test_graph_to_object_file() {
    let mut g: TypedGraph<String> = TypedGraph::new();
    let a = g.new_node("a".to_string());
    let b = g.new_node("b".to_string());
    g.add_edge(a, b);
    g.add_edge(b, b);

    let of = from_graph(&g);
    assert_eq!(of.functions.len(), 2);
    assert_eq!(of.get_fun_id("a"), Some(0));
    assert_eq!(of.get_fun_id("b"), Some(1));
    assert!(!of.get_fun_by_name("a").unwrap().is_external());
    assert_eq!(of.calls.len(), 2);
    assert_eq!(of.calls[0].callee, SymPtr::F(b));
    assert_eq!(of.calls[0].callsite, Some(SymPtr::F(a)));
    assert_eq!(of.calls[1].callee, SymPtr::F(b));
    assert_eq!(of.calls[1].callsite, Some(SymPtr::F(b)));

    // The round trip restores the same call graph.
    let g2 = to_graph(&of);
    assert_eq!(g2.mapping().clone(), g.mapping().clone());
    for v in 0..g.size() {
        assert_eq!(g2.next(v).clone(), g.next(v).clone());
    }
}
