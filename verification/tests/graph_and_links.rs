use impact_core::{
    link, Confidence, ContractKind, ContractRef, ContractRole, Edge, EdgeKind, FileScope, Node, NodeId, NodeKind,
    PackageDecl, PackageDependency, RefDecl, RefTarget, Resolver, SymbolGraph,
};

fn node_in(id: &str, kind: NodeKind, path: &str, file: &str, language: &str) -> Node {
    Node {
        id: NodeId(id.to_string()),
        kind,
        qualified_path: path.to_string(),
        file: file.to_string(),
        line: 1,
        end_line: 1,
        language: language.to_string(),
        is_test: false,
        is_generated: false,
        is_default_export: false,
    }
}

fn func(id: &str, path: &str) -> Node {
    node_in(id, NodeKind::Function, path, "src/lib.rs", "rust")
}

fn ids(v: &[NodeId]) -> Vec<String> {
    v.iter().map(|i| i.0.clone()).collect()
}

fn reference(from: &str, to: &str, target: RefTarget) -> RefDecl {
    RefDecl { from_qualified_path: from.to_string(), to_name: to.to_string(), kind: EdgeKind::Calls, to_target: target }
}

fn edge_pairs(es: &[Edge]) -> Vec<(String, String, EdgeKind, Confidence)> {
    es.iter().map(|e| (e.from.0.clone(), e.to.0.clone(), e.kind, e.confidence)).collect()
}

#[test]
fn node_id_is_the_blake3_hex_of_its_seed() {
    let id = NodeId::new("proj", "m::a", NodeKind::Function);
    assert_eq!(id.0.len(), 64);
    assert_eq!(id.0, blake3::hash(b"proj\0m::a\0Function").to_hex().to_string());
    let c = NodeId::new("proj", "orders", NodeKind::Contract(ContractKind::Table));
    assert_eq!(c.0, blake3::hash(b"proj\0orders\0Contract(Table)").to_hex().to_string());
    assert_eq!(id, NodeId::new("proj", "m::a", NodeKind::Function));
    assert_ne!(id, NodeId::new("proj", "m::a", NodeKind::Type));
    assert_ne!(id, NodeId::new("other", "m::a", NodeKind::Function));
    assert_eq!(id.as_text(), id.0);
}

#[test]
fn confidence_weaker_and_at_least() {
    assert_eq!(Confidence::Exact.weaker(Confidence::Probable), Confidence::Probable);
    assert_eq!(Confidence::Heuristic.weaker(Confidence::Exact), Confidence::Heuristic);
    assert_eq!(Confidence::Probable.weaker(Confidence::Probable), Confidence::Probable);
    assert!(Confidence::Exact.at_least(Confidence::Heuristic));
    assert!(Confidence::Probable.at_least(Confidence::Probable));
    assert!(!Confidence::Heuristic.at_least(Confidence::Probable));
    assert!(!Confidence::Probable.at_least(Confidence::Exact));
}

#[test]
fn graph_replaces_a_node_with_the_same_id() {
    let mut g = SymbolGraph::new();
    assert!(g.is_empty());
    g.insert_node(func("a", "m::a"));
    g.insert_node(func("b", "m::b"));
    g.insert_node(func("a", "m::renamed"));
    assert_eq!(g.node_count(), 2);
    assert_eq!(g.node(&NodeId("a".to_string())).unwrap().qualified_path, "m::renamed");
    assert_eq!(g.nodes()[1].qualified_path, "m::b");
    assert!(g.node(&NodeId("zz".to_string())).is_none());
    g.insert_edge(Edge {
        from: NodeId("a".to_string()),
        to: NodeId("b".to_string()),
        kind: EdgeKind::Calls,
        confidence: Confidence::Exact,
    });
    assert_eq!(g.edges().len(), 1);
}

fn resolver_graph() -> SymbolGraph {
    let mut g = SymbolGraph::new();
    g.insert_node(func("1", "billing::PaymentStatus::Failed"));
    g.insert_node(func("2", "shipping::PaymentStatus::Failed"));
    g.insert_node(func("3", "billing::charge"));
    g.insert_node(func("4", "util::validate"));
    g.insert_node(func("5", "orders::validate"));
    g.insert_node(node_in("6", NodeKind::Module, "billing", "src/billing.rs", "rust"));
    g
}

#[test]
fn resolver_tiers() {
    let g = resolver_graph();
    let r = Resolver::build(&g);
    let (v, c) = r.resolve("billing::charge").unwrap();
    assert_eq!((ids(&v), c), (vec!["3".to_string()], Confidence::Exact));
    let (v, c) = r.resolve("PaymentStatus::Failed").unwrap();
    assert_eq!((ids(&v), c), (vec!["1".to_string(), "2".to_string()], Confidence::Heuristic));
    let (v, c) = r.resolve("charge").unwrap();
    assert_eq!((ids(&v), c), (vec!["3".to_string()], Confidence::Exact));
    let (v, c) = r.resolve("validate").unwrap();
    assert_eq!((ids(&v), c), (vec!["4".to_string(), "5".to_string()], Confidence::Heuristic));
    assert!(r.resolve("billing").is_none(), "modules are never targets");
    assert!(r.resolve("nothing").is_none());
}

#[test]
fn resolver_uses_call_site_evidence() {
    let g = resolver_graph();
    let r = Resolver::build(&g);
    let (v, c) = r.resolve_ref(&reference("x", "validate", RefTarget::Module("util".to_string()))).unwrap();
    assert_eq!((ids(&v), c), (vec!["4".to_string()], Confidence::Exact));
    // An import that points outside the project drops the edge.
    assert!(r.resolve_ref(&reference("x", "validate", RefTarget::Module("std".to_string()))).is_none());
    // No scope evidence: never better than Probable.
    let (v, c) = r.resolve_ref(&reference("x", "charge", RefTarget::Opaque)).unwrap();
    assert_eq!((ids(&v), c), (vec!["3".to_string()], Confidence::Probable));
    let (_, c) = r.resolve_ref(&reference("x", "validate", RefTarget::Opaque)).unwrap();
    assert_eq!(c, Confidence::Heuristic);
    let (_, c) = r.resolve_ref(&reference("x", "charge", RefTarget::Unscoped)).unwrap();
    assert_eq!(c, Confidence::Exact);
    // The project root as a module is no evidence at all.
    let (v, c) = r.resolve_ref(&reference("x", "validate", RefTarget::Module(String::new()))).unwrap();
    assert_eq!((ids(&v), c), (vec!["4".to_string(), "5".to_string()], Confidence::Heuristic));
}

#[test]
fn resolver_prefers_real_implementations_over_generated_ones() {
    let mut g = SymbolGraph::new();
    g.insert_node(func("real", "svc::Store::Get"));
    let mut mock = func("mock", "svc::MockStore::Get");
    mock.is_generated = true;
    g.insert_node(mock);
    let r = Resolver::build(&g);
    let (v, c) = r.resolve_ref(&reference("x", "Get", RefTarget::Module("svc".to_string()))).unwrap();
    assert_eq!((ids(&v), c), (vec!["real".to_string()], Confidence::Exact));
    // The plain tiers still see both.
    let (v, _) = r.resolve("Get").unwrap();
    assert_eq!(v.len(), 2);
}

#[test]
fn resolver_default_import_matches_the_default_export() {
    let mut g = SymbolGraph::new();
    let mut d = func("d", "web::utils::camelize");
    d.is_default_export = true;
    g.insert_node(d);
    g.insert_node(func("e", "web::utils::other"));
    let r = Resolver::build(&g);
    let (v, c) = r.resolve_ref(&reference("x", "whatever", RefTarget::ModuleDefault("web::utils".to_string()))).unwrap();
    assert_eq!((ids(&v), c), (vec!["d".to_string()], Confidence::Exact));
    assert!(r.resolve_ref(&reference("x", "whatever", RefTarget::ModuleDefault("api".to_string()))).is_none());
}

#[test]
fn file_scope_resolution_order() {
    let mut s = FileScope::new("app::main", RefTarget::Opaque);
    assert_eq!(s.module(), "app::main");
    s.add_import("helper", "app::util");
    s.add_default_import("Widget", "app::widget");
    s.declare_local("run");
    assert!(matches!(s.bare("helper"), RefTarget::Module(m) if m == "app::util"));
    assert!(matches!(s.bare("Widget"), RefTarget::ModuleDefault(m) if m == "app::widget"));
    assert!(matches!(s.bare("run"), RefTarget::Module(m) if m == "app::main"));
    assert!(matches!(s.bare("unknown"), RefTarget::Opaque));
    s.add_wildcard("app::prelude");
    assert!(matches!(s.bare("unknown"), RefTarget::Module(m) if m == "app::prelude"));
    s.add_wildcard("app::more");
    assert!(matches!(s.bare("unknown"), RefTarget::Opaque));
    assert!(matches!(s.qualified("helper"), RefTarget::Module(m) if m == "app::util"));
    assert!(matches!(s.qualified("run"), RefTarget::Module(m) if m == "app::main"));
    assert!(matches!(s.qualified("Widget"), RefTarget::Module(m) if m == "app::widget"));
    assert!(matches!(s.qualified("Nope"), RefTarget::Opaque));
    assert!(matches!(s.own(), RefTarget::Module(m) if m == "app::main"));
}

#[test]
fn link_resolves_calls_within_their_language() {
    let mut g = SymbolGraph::new();
    g.insert_node(node_in("caller", NodeKind::Function, "app::run", "src/app.rs", "rust"));
    g.insert_node(node_in("leave_rs", NodeKind::Field, "app::State::Leave", "src/app.rs", "rust"));
    g.insert_node(node_in("js_caller", NodeKind::Function, "web::go", "web/go.js", "javascript"));
    g.insert_node(node_in("ev", NodeKind::Contract(ContractKind::Event), "OrderPlaced", "", "rust"));
    let refs = vec![
        reference("app::run", "Leave", RefTarget::Unscoped),
        reference("web::go", "Leave", RefTarget::Unscoped),
        reference("nobody", "Leave", RefTarget::Unscoped),
    ];
    let crs = vec![
        ContractRef {
            contract_kind: ContractKind::Event,
            contract_id: "OrderPlaced".to_string(),
            symbol_name: "go".to_string(),
            role: ContractRole::Produces,
        },
        ContractRef {
            contract_kind: ContractKind::Event,
            contract_id: "Missing".to_string(),
            symbol_name: "go".to_string(),
            role: ContractRole::Consumes,
        },
    ];
    let edges = link(&g, &refs, &crs, &[]);
    assert_eq!(
        edge_pairs(&edges),
        vec![
            ("caller".to_string(), "leave_rs".to_string(), EdgeKind::Calls, Confidence::Exact),
            ("js_caller".to_string(), "ev".to_string(), EdgeKind::Produces, Confidence::Exact),
        ]
    );
}

fn package(name: &str, root: &str, deps: Vec<(&str, bool)>) -> (String, PackageDecl) {
    (
        "rust".to_string(),
        PackageDecl {
            name: name.to_string(),
            import_name: name.replace('-', "_"),
            root: root.to_string(),
            source_root: format!("{root}/src"),
            module_root: format!("{}::src", root.replace('/', "::")),
            dependencies: deps
                .into_iter()
                .map(|(d, dev)| PackageDependency {
                    package: d.to_string(),
                    import_name: d.replace('-', "_"),
                    dev_only: dev,
                })
                .collect(),
        },
    )
}

#[test]
fn link_keeps_calls_inside_reachable_packages() {
    let mut g = SymbolGraph::new();
    g.insert_node(node_in("app_main", NodeKind::Function, "crates::app::src::main", "crates/app/src/main.rs", "rust"));
    g.insert_node(node_in("wire_enc", NodeKind::Function, "crates::wire-protocol::src::codec::encode", "crates/wire-protocol/src/codec.rs", "rust"));
    g.insert_node(node_in("other_enc", NodeKind::Function, "crates::other::src::encode", "crates/other/src/lib.rs", "rust"));
    let packages = vec![
        package("app", "crates/app", vec![("wire-protocol", false)]),
        package("wire-protocol", "crates/wire-protocol", vec![]),
        package("other", "crates/other", vec![]),
    ];
    // A bare call only sees its own package and what it depends on.
    let bare = vec![reference("crates::app::src::main", "encode", RefTarget::Opaque)];
    let edges = link(&g, &bare, &[], &packages);
    assert_eq!(
        edge_pairs(&edges),
        vec![("app_main".to_string(), "wire_enc".to_string(), EdgeKind::Calls, Confidence::Probable)]
    );
    // An import by the dependency's import name is rewritten to where it is indexed.
    let imported =
        vec![reference("crates::app::src::main", "encode", RefTarget::Module("wire_protocol::codec".to_string()))];
    let edges = link(&g, &imported, &[], &packages);
    assert_eq!(
        edge_pairs(&edges),
        vec![("app_main".to_string(), "wire_enc".to_string(), EdgeKind::Calls, Confidence::Exact)]
    );
}

#[test]
fn contract_ids_match_exactly_or_not_at_all() {
    let mut g = SymbolGraph::new();
    g.insert_node(node_in("h", NodeKind::Function, "api::handler", "src/api.rs", "rust"));
    g.insert_node(node_in("t", NodeKind::Contract(ContractKind::Table), "db::orders", "", ""));
    let cref = |id: &str| ContractRef {
        contract_kind: ContractKind::Table,
        contract_id: id.to_string(),
        symbol_name: "handler".to_string(),
        role: ContractRole::Writes,
    };
    // `orders` is the contract's last segment, not its id: no edge.
    assert!(link(&g, &[], &[cref("orders")], &[]).is_empty());
    let edges = link(&g, &[], &[cref("db::orders")], &[]);
    assert_eq!(edge_pairs(&edges), vec![("h".to_string(), "t".to_string(), EdgeKind::Writes, Confidence::Exact)]);
}

#[test]
fn package_reach_is_transitive_and_keeps_dev_dependencies_to_tests() {
    let entries = vec![
        package("app", "crates/app", vec![("wire", false), ("testkit", true)]),
        package("wire", "crates/wire", vec![("codec", false), ("fixtures", true)]),
        package("codec", "crates/codec", vec![]),
        package("testkit", "crates/testkit", vec![]),
        package("fixtures", "crates/fixtures", vec![]),
    ];
    let p = impact_core::packages::Packages::new(&entries);
    assert!(p.can_see(0, 0, false));
    assert!(p.can_see(0, 2, false), "a dependency's dependency");
    assert!(!p.can_see(0, 3, false), "dev-only is for test code");
    assert!(p.can_see(0, 3, true));
    assert!(p.can_see(0, 2, true));
    assert!(!p.can_see(0, 4, true), "never a dependency's own dev-only dependency");
    assert!(!p.can_see(2, 0, false));
    assert_eq!(p.owner("rust", "crates/app/src/main.rs"), Some(0));
    assert_eq!(p.owner("rust", "crates/application/x.rs"), None);
    assert_eq!(p.owner("go", "crates/app/src/main.rs"), None);
    assert_eq!(p.source_root(1), "crates/wire/src");
}

#[test]
fn the_deepest_package_root_owns_a_file() {
    let entries = vec![package("outer", "crates", vec![]), package("inner", "crates/inner", vec![])];
    let p = impact_core::packages::Packages::new(&entries);
    assert_eq!(p.owner("rust", "crates/inner/src/lib.rs"), Some(1));
    assert_eq!(p.owner("rust", "crates/other/src/lib.rs"), Some(0));
    assert!(impact_core::packages::is_under("a/b.rs", ""));
    assert!(!impact_core::packages::is_under("ab/c.rs", "a"));
}

#[test]
fn a_contract_id_never_matches_a_node_of_another_kind() {
    let mut g = SymbolGraph::new();
    g.insert_node(node_in("s", NodeKind::Function, "repo::save", "src/repo.rs", "rust"));
    g.insert_node(node_in("p", NodeKind::Function, "payments", "src/payments.rs", "rust"));
    let crs = vec![ContractRef {
        contract_kind: ContractKind::Table,
        contract_id: "payments".to_string(),
        symbol_name: "repo::save".to_string(),
        role: ContractRole::Writes,
    }];
    assert!(link(&g, &[], &crs, &[]).is_empty());
    g.insert_node(node_in("t", NodeKind::Contract(ContractKind::Table), "payments", "", ""));
    let edges = link(&g, &[], &crs, &[]);
    assert_eq!(edge_pairs(&edges), vec![("s".to_string(), "t".to_string(), EdgeKind::Writes, Confidence::Exact)]);
}
