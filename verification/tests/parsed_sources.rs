use impact_core::{
    build_tree, parse_cpp, parse_go, ContractKind, CppAdapter, EdgeKind, GoAdapter, NodeKind, ParsedNode, RefTarget,
};

const GO_SOURCE: &str = "package svc

import (
\t\"net/http\"
\tst \"example.com/x/internal/store\"
)

type Handler struct {
\tRepo st.Repo
}

func (h *Handler) Serve() {
\th.Repo.Save()
\thelper()
}

func helper() {}

var db = st.Open()

var limit = 10

func routes(mux *http.ServeMux, h *Handler) {
\tmux.HandleFunc(\"GET /items\", h.List)
\tmux.HandleFunc(\"/legacy\", h.List)
}
";

const CPP_SOURCE: &str = "namespace billing {
class PaymentService {
 public:
  void charge() { validate(); this->log(); }
};
}

void billing::PaymentService::refund() { Util::audit(); obj.run(); }

template <typename T> void twice() { helper(); PaymentService::create(); }
";

fn target_text(t: &RefTarget) -> String {
    match t {
        RefTarget::Module(m) => format!("module {m}"),
        RefTarget::ModuleDefault(m) => format!("default {m}"),
        RefTarget::Opaque => "opaque".to_string(),
        RefTarget::Unscoped => "unscoped".to_string(),
    }
}

#[test]
fn parsed_go_file_keeps_path_and_source() {
    let f = GoAdapter::default().parse_file("svc\\handler.go", GO_SOURCE).expect("parses");
    assert_eq!(f.path, "svc/handler.go");
    assert_eq!(f.source, GO_SOURCE);
    assert_eq!(f.root.kind, "source_file");
    assert_eq!(f.root.line, 1);
    assert_eq!(f.root.text, GO_SOURCE);
    assert!(f.root.field.is_none());
}

#[test]
fn go_symbols_from_real_source() {
    let a = GoAdapter::default();
    let f = a.parse_file("svc/handler.go", GO_SOURCE).unwrap();
    let got: Vec<(NodeKind, String, usize, usize)> = a
        .extract_symbols(&f)
        .into_iter()
        .map(|d| (d.kind, d.qualified_path, d.line, d.end_line))
        .collect();
    assert_eq!(
        got,
        vec![
            (NodeKind::Type, "svc::handler::Handler".to_string(), 8, 10),
            (NodeKind::Function, "svc::handler::Handler::Serve".to_string(), 12, 15),
            (NodeKind::Function, "svc::handler::helper".to_string(), 17, 17),
            (NodeKind::Field, "svc::handler::db".to_string(), 19, 19),
            (NodeKind::Function, "svc::handler::routes".to_string(), 23, 26),
        ]
    );
}

#[test]
fn go_references_from_real_source() {
    let a = GoAdapter::default();
    let f = a.parse_file("svc/handler.go", GO_SOURCE).unwrap();
    let got: Vec<(String, String, String)> = a
        .extract_references(&f)
        .into_iter()
        .map(|r| {
            assert_eq!(r.kind, EdgeKind::Calls);
            (r.from_qualified_path, r.to_name, target_text(&r.to_target))
        })
        .collect();
    let serve = "svc::handler::Handler::Serve".to_string();
    let routes = "svc::handler::routes".to_string();
    assert_eq!(
        got,
        vec![
            (serve.clone(), "Save".to_string(), "module store".to_string()),
            (serve, "helper".to_string(), "module svc::handler".to_string()),
            ("svc::handler::db".to_string(), "Open".to_string(), "module store".to_string()),
            (routes.clone(), "HandleFunc".to_string(), "module http".to_string()),
            (routes, "HandleFunc".to_string(), "module http".to_string()),
        ]
    );
}

#[test]
fn go_routes_from_real_source() {
    let a = GoAdapter::default();
    let f = a.parse_file("svc/handler.go", GO_SOURCE).unwrap();
    let routes = a.extract_contract_refs(&f);
    assert_eq!(routes.len(), 1);
    assert_eq!(routes[0].contract_kind, ContractKind::ApiRoute);
    assert_eq!(routes[0].contract_id, "GET /items");
    assert_eq!(routes[0].symbol_name, "List");
}

#[test]
fn cpp_from_real_source() {
    let a = CppAdapter::new();
    let f = a.parse_file("src/billing/service.cpp", CPP_SOURCE).unwrap();
    let symbols: Vec<(NodeKind, String, usize)> =
        a.extract_symbols(&f).into_iter().map(|d| (d.kind, d.qualified_path, d.line)).collect();
    assert_eq!(
        symbols,
        vec![
            (NodeKind::Type, "src::billing::service::billing::PaymentService".to_string(), 2),
            (NodeKind::Function, "src::billing::service::billing::PaymentService::charge".to_string(), 4),
            (NodeKind::Function, "src::billing::service::billing::PaymentService::refund".to_string(), 8),
            (NodeKind::Function, "src::billing::service::twice".to_string(), 10),
        ]
    );
    let refs: Vec<(String, String)> =
        a.extract_references(&f).into_iter().map(|r| (r.to_name, target_text(&r.to_target))).collect();
    assert_eq!(
        refs,
        vec![
            ("validate".to_string(), "unscoped".to_string()),
            ("log".to_string(), "module src::billing::service".to_string()),
            ("audit".to_string(), "opaque".to_string()),
            ("run".to_string(), "opaque".to_string()),
            ("helper".to_string(), "unscoped".to_string()),
            ("create".to_string(), "module src::billing::service".to_string()),
        ]
    );
}

#[test]
fn the_free_parsers_match_the_adapters() {
    let g = parse_go("a.go", "package a\n").unwrap();
    assert_eq!(g.root.kind, "source_file");
    let c = parse_cpp("a.cpp", "int x;\n").unwrap();
    assert_eq!(c.root.kind, "translation_unit");
}

fn listed(kind: &str, children: u32) -> ParsedNode {
    ParsedNode(kind.to_string(), None, true, kind.to_string(), 0, 2, children)
}

#[test]
fn listings_rebuild_into_trees() {
    let ok = vec![listed("root", 2), listed("a", 1), listed("b", 0), listed("c", 0)];
    let t = build_tree(&ok).expect("one tree");
    assert_eq!(t.kind, "root");
    assert_eq!((t.line, t.end_line), (1, 3));
    assert_eq!(t.children.len(), 2);
    assert_eq!(t.children[0].kind, "a");
    assert_eq!(t.children[0].children[0].kind, "b");
    assert_eq!(t.children[1].kind, "c");
    // Too few nodes for the counts, or nodes left over, is no tree.
    assert!(build_tree(&vec![listed("root", 2), listed("a", 0)]).is_none());
    assert!(build_tree(&vec![listed("root", 0), listed("a", 0)]).is_none());
    assert!(build_tree(&vec![]).is_none());
}

const GO_TEST_SOURCE: &str = "package pay

import \"example.com/x/svc\"

type Service struct{}

func (s Service) Charge() {}

func New() *Service { return &Service{} }

func TestCharge(t *testing.T) {
\tNew().Charge()
\tvar s svc.Client
\ts.Do()
\tsvc.Helper()
\tunknown.Call()
}
";

#[test]
fn go_test_functions_and_chained_calls() {
    let a = GoAdapter::default();
    let f = a.parse_file("pay/service_test.go", GO_TEST_SOURCE).unwrap();
    let symbols: Vec<(NodeKind, String, usize, bool)> =
        a.extract_symbols(&f).into_iter().map(|d| (d.kind, d.qualified_path, d.line, d.is_test)).collect();
    assert_eq!(
        symbols,
        vec![
            (NodeKind::Type, "pay::service_test::Service".to_string(), 5, false),
            (NodeKind::Function, "pay::service_test::Service::Charge".to_string(), 7, false),
            (NodeKind::Function, "pay::service_test::New".to_string(), 9, false),
            (NodeKind::Function, "pay::service_test::TestCharge".to_string(), 11, true),
        ]
    );
    let refs: Vec<(String, String)> =
        a.extract_references(&f).into_iter().map(|r| (r.to_name, target_text(&r.to_target))).collect();
    assert_eq!(
        refs,
        vec![
            ("Charge".to_string(), "opaque".to_string()),
            ("New".to_string(), "module pay::service_test".to_string()),
            ("Do".to_string(), "module svc".to_string()),
            ("Helper".to_string(), "module svc".to_string()),
            ("Call".to_string(), "opaque".to_string()),
        ]
    );
}

#[test]
fn go_generated_file_from_real_source() {
    let a = GoAdapter::default();
    let src = "// Code generated by mockgen. DO NOT EDIT.\n\npackage svc\n\nfunc (m *MockStore) Get() {}\n";
    let f = a.parse_file("svc/store_mock.go", src).unwrap();
    let d = a.extract_symbols(&f);
    assert_eq!(d.len(), 1);
    assert_eq!(d[0].qualified_path, "svc::store_mock::MockStore::Get");
    assert!(d[0].is_generated);
}

#[test]
fn cpp_declarator_shapes_from_real_source() {
    let src = "struct Point {\n  int& get() { return helper(); }\n  ~Point() {}\n};\nint* make() { return nullptr; }\n";
    let a = CppAdapter::new();
    let f = a.parse_file("geo.hpp", src).unwrap();
    let symbols: Vec<(NodeKind, String, usize)> =
        a.extract_symbols(&f).into_iter().map(|d| (d.kind, d.qualified_path, d.line)).collect();
    assert_eq!(
        symbols,
        vec![
            (NodeKind::Type, "geo::Point".to_string(), 1),
            (NodeKind::Function, "geo::Point::get".to_string(), 2),
            (NodeKind::Function, "geo::Point::~Point".to_string(), 3),
            (NodeKind::Function, "geo::make".to_string(), 5),
        ]
    );
    let refs: Vec<(String, String, String)> = a
        .extract_references(&f)
        .into_iter()
        .map(|r| (r.from_qualified_path, r.to_name, target_text(&r.to_target)))
        .collect();
    assert_eq!(refs, vec![("geo::Point::get".to_string(), "helper".to_string(), "unscoped".to_string())]);
}

#[test]
fn a_go_file_without_functions_or_bindings_has_no_references() {
    let a = GoAdapter::default();
    let f = a.parse_file("x/types.go", "package x\n\ntype T struct {\n\tf int\n}\n").unwrap();
    assert!(a.extract_references(&f).is_empty());
}

#[test]
fn a_cpp_call_outside_any_function_is_not_recorded() {
    let a = CppAdapter::new();
    let f = a.parse_file("src/init.cpp", "int x = compute();\nnamespace n { int y = other(); }\n").unwrap();
    assert!(a.extract_references(&f).is_empty());
    let g = a.parse_file("src/init.cpp", "int x = compute();\nvoid run() { other(); }\n").unwrap();
    let refs = a.extract_references(&g);
    assert_eq!(refs.len(), 1);
    assert_eq!(refs[0].to_name, "other");
}
