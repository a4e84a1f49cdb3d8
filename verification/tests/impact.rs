use impact_core::{
    apply_explain, compute_change_impact, compute_diff_impact, compute_file_impact, compute_symbol_impact,
    filter_min_confidence, ChangeSpec, Confidence, ContractKind, DiffTouches, Edge, EdgeKind, Node, NodeId, NodeKind,
    SymbolGraph,
};

fn node(id: &str, kind: NodeKind, path: &str, file: &str, line: usize, end_line: usize, is_test: bool) -> Node {
    Node {
        id: NodeId(id.to_string()),
        kind,
        qualified_path: path.to_string(),
        file: file.to_string(),
        line,
        end_line,
        language: "rust".to_string(),
        is_test,
        is_generated: false,
        is_default_export: false,
    }
}

fn edge(from: &str, to: &str, kind: EdgeKind, confidence: Confidence) -> Edge {
    Edge { from: NodeId(from.to_string()), to: NodeId(to.to_string()), kind, confidence }
}

/// a <- b <- {c (test), d}; b produces the event, d writes the table.
fn sample() -> SymbolGraph {
    let mut g = SymbolGraph::new();
    g.insert_node(node("a", NodeKind::Function, "m::a", "src/m.rs", 1, 3, false));
    g.insert_node(node("b", NodeKind::Function, "m::b", "src/m.rs", 5, 9, false));
    g.insert_node(node("c", NodeKind::Function, "n::c", "src/n.rs", 1, 4, true));
    g.insert_node(node("d", NodeKind::Function, "n::d", "src/n.rs", 6, 8, false));
    g.insert_node(node("ev", NodeKind::Contract(ContractKind::Event), "PaymentCreated", "", 0, 0, false));
    g.insert_node(node("tbl", NodeKind::Contract(ContractKind::Table), "payments", "", 0, 0, false));
    g.insert_edge(edge("b", "a", EdgeKind::Calls, Confidence::Exact));
    g.insert_edge(edge("c", "b", EdgeKind::Calls, Confidence::Heuristic));
    g.insert_edge(edge("d", "b", EdgeKind::References, Confidence::Probable));
    g.insert_edge(edge("b", "ev", EdgeKind::Produces, Confidence::Exact));
    g.insert_edge(edge("d", "tbl", EdgeKind::Writes, Confidence::Exact));
    g.insert_edge(edge("a", "b", EdgeKind::Contains, Confidence::Exact));
    g
}

fn paths(ds: &[impact_core::Dependent]) -> Vec<String> {
    ds.iter().map(|d| d.path.clone()).collect()
}

#[test]
fn symbol_impact_splits_direct_and_indirect() {
    let g = sample();
    let r = compute_symbol_impact(&g, "m::a").expect("m::a resolves");
    assert_eq!(paths(&r.direct), vec!["m::b"]);
    assert_eq!(r.direct[0].confidence, Confidence::Exact);
    assert_eq!(r.direct[0].file, "src/m.rs");
    assert_eq!(r.direct[0].line, 5);
    assert!(r.direct[0].via.is_empty());
    assert_eq!(paths(&r.indirect), vec!["n::c", "n::d"]);
    assert_eq!(r.indirect[0].confidence, Confidence::Heuristic);
    assert_eq!(r.indirect[1].confidence, Confidence::Probable);
    assert_eq!(r.indirect[0].via, vec!["m::b".to_string()]);
    assert_eq!(r.events, vec!["PaymentCreated".to_string()]);
    assert_eq!(r.database, vec!["payments".to_string()]);
    assert!(r.api.is_empty());
    assert_eq!(r.tests, 1);
    assert_eq!(paths(&r.affected_tests), vec!["n::c"]);
}

#[test]
fn unknown_symbol_has_no_report() {
    let g = sample();
    assert!(compute_symbol_impact(&g, "does::not::exist").is_none());
}

#[test]
fn file_impact_seeds_every_symbol_of_the_file() {
    let g = sample();
    let r = compute_file_impact(&g, "src/m.rs");
    assert_eq!(paths(&r.direct), vec!["n::c", "n::d"]);
    assert!(r.indirect.is_empty());
    assert_eq!(r.events, vec!["PaymentCreated".to_string()]);
    assert_eq!(r.database, vec!["payments".to_string()]);
    assert_eq!(r.tests, 1);
}

#[test]
fn file_impact_of_unknown_file_is_empty() {
    let g = sample();
    let r = compute_file_impact(&g, "src/none.rs");
    assert!(r.direct.is_empty() && r.indirect.is_empty() && r.events.is_empty() && r.tests == 0);
}

#[test]
fn event_definition_reports_its_producers() {
    let g = sample();
    let r = compute_symbol_impact(&g, "PaymentCreated").expect("the event resolves");
    assert_eq!(paths(&r.direct), vec!["m::b"]);
    assert_eq!(paths(&r.indirect), vec!["n::c", "n::d"]);
}

#[test]
fn seeds_are_never_their_own_dependents() {
    let mut g = sample();
    g.insert_edge(edge("a", "c", EdgeKind::Calls, Confidence::Exact));
    let r = compute_symbol_impact(&g, "m::a").unwrap();
    assert!(!paths(&r.direct).contains(&"m::a".to_string()));
    assert!(!paths(&r.indirect).contains(&"m::a".to_string()));
}

#[test]
fn weakest_link_decides_a_chains_confidence() {
    let mut g = sample();
    g.insert_node(node("e", NodeKind::Function, "x::e", "src/x.rs", 1, 1, false));
    g.insert_edge(edge("e", "d", EdgeKind::Calls, Confidence::Exact));
    let r = compute_symbol_impact(&g, "m::a").unwrap();
    let e = r.indirect.iter().find(|d| d.path == "x::e").expect("e is reached");
    assert_eq!(e.confidence, Confidence::Probable);
    assert_eq!(e.via, vec!["m::b".to_string(), "n::d".to_string()]);
}

#[test]
fn a_heuristic_hop_is_reported_but_not_walked_through() {
    let mut g = sample();
    g.insert_node(node("e", NodeKind::Function, "x::e", "src/x.rs", 1, 1, false));
    g.insert_edge(edge("e", "c", EdgeKind::Calls, Confidence::Exact));
    let r = compute_symbol_impact(&g, "m::a").unwrap();
    assert!(paths(&r.indirect).contains(&"n::c".to_string()));
    assert!(!paths(&r.indirect).contains(&"x::e".to_string()));
}

#[test]
fn bfs_does_not_continue_past_a_heuristic_confidence_hop() {
    let mut g = SymbolGraph::new();
    g.insert_node(node("t", NodeKind::Function, "target::shared", "src/target.rs", 1, 1, false));
    g.insert_node(node("x", NodeKind::Function, "decoy::shared", "src/decoy.rs", 1, 1, false));
    g.insert_node(node("a", NodeKind::Function, "caller::call_ambiguous", "src/caller.rs", 6, 8, false));
    g.insert_node(node("f", NodeKind::Function, "far_caller::call_two_hops_away", "src/far_caller.rs", 3, 5, false));
    g.insert_edge(edge("a", "t", EdgeKind::Calls, Confidence::Heuristic));
    g.insert_edge(edge("a", "x", EdgeKind::Calls, Confidence::Heuristic));
    g.insert_edge(edge("f", "a", EdgeKind::Calls, Confidence::Exact));
    let r = compute_file_impact(&g, "src/target.rs");
    assert_eq!(paths(&r.direct), vec!["caller::call_ambiguous"]);
    assert_eq!(r.direct[0].file, "src/caller.rs");
    assert_eq!(r.direct[0].line, 6);
    assert_eq!(r.direct[0].confidence, Confidence::Heuristic);
    assert!(r.direct[0].via.is_empty());
    assert!(r.indirect.is_empty());
}

#[test]
fn change_impact_resolves_the_target_path() {
    let g = sample();
    let a = compute_change_impact(&g, &ChangeSpec::SignatureChange { path: "m::a".to_string() }).unwrap();
    let b = compute_symbol_impact(&g, "m::a").unwrap();
    assert_eq!(paths(&a.direct), paths(&b.direct));
    assert_eq!(paths(&a.indirect), paths(&b.indirect));
}

#[test]
fn diff_impact_matches_symbol_spans() {
    let g = sample();
    let touches = DiffTouches { files: vec![("src/m.rs".to_string(), vec![6..7])] };
    let r = compute_diff_impact(&g, &touches);
    assert_eq!(paths(&r.direct), vec!["n::c", "n::d"]);
    let none = DiffTouches { files: vec![("src/m.rs".to_string(), vec![4..5])] };
    let r2 = compute_diff_impact(&g, &none);
    assert!(r2.direct.is_empty());
}

#[test]
fn filter_drops_entries_below_the_floor() {
    let g = sample();
    let r = filter_min_confidence(compute_symbol_impact(&g, "m::a").unwrap(), Confidence::Probable);
    assert_eq!(paths(&r.direct), vec!["m::b"]);
    assert_eq!(paths(&r.indirect), vec!["n::d"]);
    assert!(r.affected_tests.is_empty());
    assert_eq!(r.tests, 0);
    assert_eq!(r.events, vec!["PaymentCreated".to_string()]);
}

#[test]
fn explain_keeps_or_clears_via() {
    let g = sample();
    let kept = apply_explain(compute_symbol_impact(&g, "m::a").unwrap(), true);
    assert_eq!(kept.indirect[1].via, vec!["m::b".to_string()]);
    let cleared = apply_explain(compute_symbol_impact(&g, "m::a").unwrap(), false);
    assert!(cleared.indirect.iter().all(|d| d.via.is_empty()));
    assert_eq!(paths(&cleared.indirect), vec!["n::c", "n::d"]);
}

#[test]
fn same_name_dependents_merge_to_the_weakest() {
    let mut g = sample();
    g.insert_node(node("b2", NodeKind::Function, "m::b", "src/other.rs", 2, 2, false));
    g.insert_edge(edge("b2", "a", EdgeKind::Calls, Confidence::Heuristic));
    let r = compute_symbol_impact(&g, "m::a").unwrap();
    assert_eq!(paths(&r.direct), vec!["m::b"]);
    assert_eq!(r.direct[0].confidence, Confidence::Heuristic);
    assert_eq!(r.direct[0].file, "src/m.rs");
}

#[test]
fn the_same_graph_gives_the_same_report() {
    let g = sample();
    let a = compute_symbol_impact(&g, "m::a").unwrap();
    let b = compute_symbol_impact(&g, "m::a").unwrap();
    assert_eq!(paths(&a.direct), paths(&b.direct));
    assert_eq!(paths(&a.indirect), paths(&b.indirect));
    assert_eq!((a.events, a.database, a.api, a.tests), (b.events, b.database, b.api, b.tests));
}

#[test]
fn structural_edges_never_change_a_report() {
    let plain = compute_symbol_impact(&sample(), "m::a").unwrap();
    let mut g = sample();
    g.insert_edge(edge("d", "a", EdgeKind::Imports, Confidence::Exact));
    g.insert_edge(edge("c", "a", EdgeKind::Implements, Confidence::Exact));
    g.insert_edge(edge("b", "d", EdgeKind::Contains, Confidence::Exact));
    let more = compute_symbol_impact(&g, "m::a").unwrap();
    assert_eq!(paths(&more.direct), paths(&plain.direct));
    assert_eq!(paths(&more.indirect), paths(&plain.indirect));
    assert_eq!(more.direct[0].confidence, plain.direct[0].confidence);
    assert_eq!((more.events, more.database, more.api, more.tests), (plain.events, plain.database, plain.api, plain.tests));
}
