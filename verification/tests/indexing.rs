use impact_core::{
    cross_project_matches, decl_node, event_diff, event_wiring, route_file, synthesize_contracts, Confidence,
    ContractKind, ContractRef, ContractRole, DetectorConfig, DetectorOverrides, Edge, EdgeKind, EventStrategy,
    ImpactReport, LinkConfidence, Node, NodeId, NodeKind, OrphanedEvent, SymbolDecl, SymbolGraph, Workspace,
    WorkspaceLink, WorkspaceProject,
};

fn strings(v: &[&str]) -> Vec<String> {
    v.iter().map(|s| s.to_string()).collect()
}

#[test]
fn detector_defaults() {
    let c = DetectorConfig::default();
    assert_eq!(c.api_frameworks, strings(&["axum", "net/http", "fastapi", "flask", "express", "fastify"]));
    assert_eq!(c.event_strategy, EventStrategy::MarkerTrait);
    assert_eq!(c.event_marker_trait, "Event");
    assert_eq!(c.event_naming_suffix, "Event");
    assert_eq!(c.database_macros, strings(&["query", "query_as", "query_scalar"]));
    assert_eq!(EventStrategy::default(), EventStrategy::MarkerTrait);
}

#[test]
fn detector_overrides_replace_only_what_they_set() {
    let c = DetectorConfig::with_overrides(DetectorOverrides {
        api_frameworks: Some(strings(&["gin"])),
        event_strategy: Some(EventStrategy::NamingConvention),
        event_marker_trait: None,
        event_naming_suffix: Some("Evt".to_string()),
        database_macros: None,
    });
    assert_eq!(c.api_frameworks, strings(&["gin"]));
    assert_eq!(c.event_strategy, EventStrategy::NamingConvention);
    assert_eq!(c.event_marker_trait, "Event");
    assert_eq!(c.event_naming_suffix, "Evt");
    assert_eq!(c.database_macros, strings(&["query", "query_as", "query_scalar"]));
}

fn project(id: &str, path: &str, cache: Option<&str>) -> WorkspaceProject {
    WorkspaceProject { id: id.to_string(), path: path.to_string(), cache_dir: cache.map(|c| c.to_string()) }
}

#[test]
fn workspace_paths_resolve_against_the_workspace_directory() {
    let mut w = Workspace {
        projects: vec![project("web", "../web", Some("cache/web")), project("api", "/srv/api", Some("/tmp/c"))],
        links: vec![],
    };
    w.resolve_paths("/home/me/ws");
    assert_eq!(w.projects[0].path, "/home/me/ws/../web");
    assert_eq!(w.projects[0].cache_dir.as_deref(), Some("/home/me/ws/cache/web"));
    assert_eq!(w.projects[1].path, "/srv/api");
    assert_eq!(w.projects[1].cache_dir.as_deref(), Some("/tmp/c"));
    let mut v = Workspace { projects: vec![project("x", "x", None)], links: vec![] };
    v.resolve_paths("");
    assert_eq!(v.projects[0].path, "x");
    assert_eq!(v.projects[0].cache_dir, None);
}

#[test]
fn workspace_cache_dir_defaults_under_the_project() {
    let w = Workspace { projects: vec![], links: vec![] };
    assert_eq!(w.cache_dir_for(&project("a", "/p/a", None)), "/p/a/.impact");
    assert_eq!(w.cache_dir_for(&project("a", "/p/a/", None)), "/p/a/.impact");
    assert_eq!(w.cache_dir_for(&project("a", "/p/a", Some("/c"))), "/c");
}

fn contract(id: &str, kind: ContractKind, path: &str) -> Node {
    Node {
        id: NodeId(id.to_string()),
        kind: NodeKind::Contract(kind),
        qualified_path: path.to_string(),
        file: String::new(),
        line: 0,
        end_line: 0,
        language: String::new(),
        is_test: false,
        is_generated: false,
        is_default_export: false,
    }
}

fn report(api: &[&str], events: &[&str], database: &[&str]) -> ImpactReport {
    ImpactReport {
        direct: vec![],
        indirect: vec![],
        api: strings(api),
        events: strings(events),
        database: strings(database),
        tests: 0,
        affected_tests: vec![],
    }
}

fn link(p: &str, c: &str) -> WorkspaceLink {
    WorkspaceLink { produces: p.to_string(), consumes: c.to_string() }
}

#[test]
fn cross_project_matches_and_their_tiers() {
    let mut web = SymbolGraph::new();
    web.insert_node(contract("w1", ContractKind::ApiRoute, "POST /payments"));
    web.insert_node(contract("w2", ContractKind::ApiRoute, "GET /health"));
    let mut jobs = SymbolGraph::new();
    jobs.insert_node(contract("j1", ContractKind::Event, "PaymentCreated"));
    jobs.insert_node(contract("j2", ContractKind::Table, "PaymentCreated"));
    let mut ops = SymbolGraph::new();
    ops.insert_node(contract("o1", ContractKind::ApiRoute, "GET /health"));
    let w = Workspace {
        projects: vec![],
        links: vec![link("backend:POST /payments", "web"), link("jobs", "backend")],
    };
    let r = report(&["POST /payments", "GET /health"], &["PaymentCreated"], &["payments"]);
    let others = vec![("web".to_string(), web), ("ops".to_string(), ops), ("jobs".to_string(), jobs)];
    let got: Vec<(String, ContractKind, String, LinkConfidence)> = cross_project_matches(&w, "backend", &r, &others)
        .into_iter()
        .map(|m| (m.project_id, m.contract_kind, m.contract_id, m.confidence))
        .collect();
    assert_eq!(
        got,
        vec![
            ("jobs".to_string(), ContractKind::Event, "PaymentCreated".to_string(), LinkConfidence::Strong),
            ("ops".to_string(), ContractKind::ApiRoute, "GET /health".to_string(), LinkConfidence::Weak),
            ("web".to_string(), ContractKind::ApiRoute, "GET /health".to_string(), LinkConfidence::Weak),
            ("web".to_string(), ContractKind::ApiRoute, "POST /payments".to_string(), LinkConfidence::Declared),
        ]
    );
}

#[test]
fn declared_links_read_in_either_direction() {
    let mut web = SymbolGraph::new();
    web.insert_node(contract("w1", ContractKind::ApiRoute, "POST /payments"));
    let r = report(&["POST /payments"], &[], &[]);
    let others = vec![("web".to_string(), web)];
    for l in [
        link("web:POST /payments", "backend"),
        link("backend", "web:POST /payments"),
        link("backend:POST /payments", "web:POST /payments"),
    ] {
        let w = Workspace { projects: vec![], links: vec![l] };
        let m = cross_project_matches(&w, "backend", &r, &others);
        assert_eq!(m.len(), 1);
        assert_eq!(m[0].confidence, LinkConfidence::Declared);
    }
    let w = Workspace { projects: vec![], links: vec![link("web", "backend")] };
    assert_eq!(cross_project_matches(&w, "backend", &r, &others)[0].confidence, LinkConfidence::Strong);
    let w = Workspace { projects: vec![], links: vec![link("web:GET /other", "backend")] };
    assert_eq!(cross_project_matches(&w, "backend", &r, &others)[0].confidence, LinkConfidence::Weak);
}

#[test]
fn routes_go_to_the_first_adapter_that_claims_them() {
    let adapters = vec![strings(&["**/*.go"]), strings(&["**/*.cpp", "**/*.h"]), strings(&["**/*.go"])];
    let exclude = strings(&["vendor/**"]);
    assert_eq!(route_file(&adapters, &exclude, "cmd/main.go").unwrap(), Some(0));
    assert_eq!(route_file(&adapters, &exclude, "main.go").unwrap(), Some(0));
    assert_eq!(route_file(&adapters, &exclude, "src/x.h").unwrap(), Some(1));
    assert_eq!(route_file(&adapters, &exclude, "vendor/lib/a.go").unwrap(), None);
    assert_eq!(route_file(&adapters, &exclude, "README.md").unwrap(), None);
    assert!(route_file(&adapters, &strings(&["a[b"]), "x.go").is_err());
}

#[test]
fn declarations_become_nodes_with_stable_ids() {
    let decl = SymbolDecl {
        kind: NodeKind::Function,
        qualified_path: "svc::Handle".to_string(),
        line: 3,
        end_line: 9,
        is_test: true,
        is_generated: false,
        is_default_export: true,
    };
    let n = decl_node("proj", "svc/handler.go", "go", &decl);
    assert_eq!(n.id, NodeId::new("proj", "svc::Handle", NodeKind::Function));
    assert_eq!(n.kind, NodeKind::Function);
    assert_eq!(n.qualified_path, "svc::Handle");
    assert_eq!(n.file, "svc/handler.go");
    assert_eq!((n.line, n.end_line), (3, 9));
    assert_eq!(n.language, "go");
    assert!(n.is_test && !n.is_generated && n.is_default_export);
}

fn cref(kind: ContractKind, id: &str) -> ContractRef {
    ContractRef {
        contract_kind: kind,
        contract_id: id.to_string(),
        symbol_name: "f".to_string(),
        role: ContractRole::Reads,
    }
}

#[test]
fn routes_and_tables_get_synthesized_once() {
    let mut g = SymbolGraph::new();
    g.insert_node(contract("t", ContractKind::Table, "orders"));
    let refs = vec![
        cref(ContractKind::Table, "orders"),
        cref(ContractKind::ApiRoute, "GET /a"),
        cref(ContractKind::Event, "Ev"),
        cref(ContractKind::Table, "items"),
        cref(ContractKind::ApiRoute, "GET /a"),
        cref(ContractKind::ApiRoute, "items"),
    ];
    let made = synthesize_contracts("p", &mut g, &refs);
    let got: Vec<(NodeKind, String)> = made.iter().map(|n| (n.kind, n.qualified_path.clone())).collect();
    assert_eq!(
        got,
        vec![
            (NodeKind::Contract(ContractKind::ApiRoute), "GET /a".to_string()),
            (NodeKind::Contract(ContractKind::Table), "items".to_string()),
            (NodeKind::Contract(ContractKind::ApiRoute), "items".to_string()),
        ]
    );
    assert_eq!(made[0].id, NodeId::new("p", "GET /a", NodeKind::Contract(ContractKind::ApiRoute)));
    assert_eq!((made[0].file.as_str(), made[0].line, made[0].language.as_str()), ("", 0, ""));
    assert_eq!(g.node_count(), 4);
}

fn edge(from: &str, to: &str, kind: EdgeKind) -> Edge {
    Edge { from: NodeId(from.to_string()), to: NodeId(to.to_string()), kind, confidence: Confidence::Exact }
}

fn wiring(v: &[(&str, bool, bool)]) -> Vec<(String, bool, bool)> {
    v.iter().map(|(n, p, c)| (n.to_string(), *p, *c)).collect()
}

#[test]
fn event_wiring_by_name() {
    let mut g = SymbolGraph::new();
    g.insert_node(contract("e2", ContractKind::Event, "Shipped"));
    g.insert_node(contract("e1", ContractKind::Event, "Paid"));
    g.insert_node(contract("t", ContractKind::Table, "Idle"));
    let edges = vec![
        edge("f", "e1", EdgeKind::Produces),
        edge("g", "e1", EdgeKind::Consumes),
        edge("h", "e2", EdgeKind::Consumes),
        edge("h", "t", EdgeKind::Produces),
        edge("h", "e2", EdgeKind::Calls),
        edge("h", "missing", EdgeKind::Produces),
    ];
    assert_eq!(event_wiring(&g, &edges), wiring(&[("Paid", true, true), ("Shipped", false, true)]));
    assert_eq!(event_wiring(&g, &[]), wiring(&[("Paid", false, false), ("Shipped", false, false)]));
}

#[test]
fn event_diff_reports_what_was_lost() {
    let before = wiring(&[("A", true, true), ("B", true, true), ("C", true, false), ("D", true, true)]);
    let after = wiring(&[("A", true, true), ("B", false, true), ("C", false, false)]);
    assert_eq!(
        event_diff(&before, &after),
        vec![
            OrphanedEvent { event: "B".to_string(), lost_producer: true, lost_consumer: false },
            OrphanedEvent { event: "D".to_string(), lost_producer: true, lost_consumer: true },
        ]
    );
    assert!(event_diff(&wiring(&[]), &after).is_empty());
}

#[test]
fn content_hash_is_the_blake3_hex_of_the_bytes() {
    let h = impact_core::content_hash("package main\n");
    assert_eq!(h, blake3::hash(b"package main\n").to_hex().to_string());
    assert_eq!(h.len(), 64);
    assert_ne!(h, impact_core::content_hash("package main"));
}

#[test]
fn cross_project_matches_do_not_depend_on_graph_order() {
    let graph = |id: &str, path: &str| {
        let mut g = SymbolGraph::new();
        g.insert_node(contract(id, ContractKind::ApiRoute, path));
        g
    };
    let r = report(&["GET /a", "GET /b"], &[], &[]);
    let w = Workspace { projects: vec![], links: vec![link("src", "y")] };
    let one = vec![("x".to_string(), graph("1", "GET /a")), ("y".to_string(), graph("2", "GET /b"))];
    let two = vec![("y".to_string(), graph("2", "GET /b")), ("x".to_string(), graph("1", "GET /a"))];
    let a = cross_project_matches(&w, "src", &r, &one);
    let b = cross_project_matches(&w, "src", &r, &two);
    assert_eq!(a, b);
    assert_eq!(a.len(), 2);
    assert_eq!((a[0].project_id.as_str(), a[0].confidence), ("x", LinkConfidence::Weak));
    assert_eq!((a[1].project_id.as_str(), a[1].confidence), ("y", LinkConfidence::Strong));
}

#[test]
fn every_pattern_is_compiled_up_front() {
    let good = vec![strings(&["**/*.go"]), strings(&["**/*.h"])];
    assert!(impact_core::check_globs(&good, &strings(&["**"])).is_ok());
    // A bad adapter pattern is caught even where an exclusion would have matched first.
    let bad = vec![strings(&["**/*.go"]), strings(&["a[b"])];
    assert!(impact_core::check_globs(&bad, &strings(&["**"])).is_err());
    assert!(impact_core::check_globs(&good, &strings(&["[z"])).is_err());
}

#[test]
fn a_file_is_reparsed_unless_its_hash_is_cached() {
    let h = impact_core::content_hash("x");
    assert!(!impact_core::needs_reindex(&Some(h.clone()), &h));
    assert!(impact_core::needs_reindex(&Some("old".to_string()), &h));
    assert!(impact_core::needs_reindex(&None, &h));
}
