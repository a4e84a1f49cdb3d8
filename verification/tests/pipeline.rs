use impact_core::{
    compute_change_impact, compute_file_impact, decl_node, filter_min_confidence, link, parse_change,
    synthesize_contracts, Confidence, ContractRef, GoAdapter, RefDecl, SymbolGraph,
};

/// Parses and links a small Go project the way an indexing run does.
fn index_go(files: &[(&str, &str)]) -> SymbolGraph {
    let a = GoAdapter::default();
    let mut g = SymbolGraph::new();
    let mut refs: Vec<RefDecl> = Vec::new();
    let mut crs: Vec<ContractRef> = Vec::new();
    for (path, source) in files {
        let f = a.parse_file(path, source).expect("parses");
        for d in a.extract_symbols(&f) {
            g.insert_node(decl_node("proj", path, "go", &d));
        }
        refs.extend(a.extract_references(&f));
        crs.extend(a.extract_contract_refs(&f));
    }
    synthesize_contracts("proj", &mut g, &crs);
    for e in link(&g, &refs, &crs, &[]) {
        g.insert_edge(e);
    }
    g
}

fn direct(g: &SymbolGraph, change: &str) -> Vec<(String, String, usize, Confidence)> {
    let spec = parse_change(change).expect("a change description");
    let report = compute_change_impact(g, &spec).expect("the target resolves");
    filter_min_confidence(report, Confidence::Exact)
        .direct
        .into_iter()
        .map(|d| (d.path, d.file, d.line, d.confidence))
        .collect()
}

const REPOSITORY: &str = "package changes

type Repository interface {
\tAddOperation(op string) error
}

type repositoryImpl struct{}

func (r *repositoryImpl) AddOperation(op string) error {
\treturn nil
}
";

const USECASE: &str = "package usecase

import \"example.com/checkout/changes\"

type UseCase struct {
\tChangesRepository changes.Repository
}

func New(repo changes.Repository) *UseCase {
\treturn &UseCase{ChangesRepository: repo}
}

func (uc *UseCase) Do() error {
\treturn uc.ChangesRepository.AddOperation(\"x\")
}
";

#[test]
fn a_call_through_an_interface_field_resolves_exactly() {
    let g = index_go(&[("changes/repository.go", REPOSITORY), ("usecase/usecase.go", USECASE)]);
    assert_eq!(
        direct(&g, "change signature of changes::repository::repositoryImpl::AddOperation"),
        vec![("usecase::usecase::UseCase::Do".to_string(), "usecase/usecase.go".to_string(), 13, Confidence::Exact)]
    );
    let by_file = filter_min_confidence(compute_file_impact(&g, "changes/repository.go"), Confidence::Exact);
    let paths: Vec<String> = by_file.direct.into_iter().map(|d| d.path).collect();
    assert_eq!(paths, vec!["usecase::usecase::UseCase::Do".to_string()]);
}

const STORE_INTERFACE: &str = "package repository

type Repository interface {
\tGet(id string) string
}
";

const STORE_HTTP: &str = "package repository

type httpRepository struct{}

func (r *httpRepository) Get(id string) string {
\treturn id
}
";

const STORE_MOCK: &str = "// Code generated by MockGen. DO NOT EDIT.

package repository

type MockRepository struct{}

func (m *MockRepository) Get(id string) string {
\treturn id
}
";

const SERVICE: &str = "package service

import \"example.com/checkout/repository\"

type Service struct {
\trepo repository.Repository
}

func (s *Service) Load() string {
\treturn s.repo.Get(\"1\")
}
";

#[test]
fn a_generated_mock_does_not_dilute_the_real_implementation() {
    let g = index_go(&[
        ("repository/interface.go", STORE_INTERFACE),
        ("repository/http.go", STORE_HTTP),
        ("repository/interface_mock.go", STORE_MOCK),
        ("service/service.go", SERVICE),
    ]);
    assert_eq!(
        direct(&g, "change signature of repository::http::httpRepository::Get"),
        vec![("service::service::Service::Load".to_string(), "service/service.go".to_string(), 9, Confidence::Exact)]
    );
}

const DB: &str = "package app

var db = mustConnect()

var limit = 10

func mustConnect() int {
\treturn 1
}

func handler() int {
\treturn limit
}
";

#[test]
fn a_package_level_initializer_is_a_caller() {
    let g = index_go(&[("app/db.go", DB)]);
    let spec = parse_change("change signature of app::db::mustConnect").unwrap();
    let report = compute_change_impact(&g, &spec).unwrap();
    let paths: Vec<String> = report.direct.into_iter().map(|d| d.path).collect();
    assert_eq!(paths, vec!["app::db::db".to_string()]);
}

const ROUTES: &str = "package main

import \"net/http\"

func registerRoutes(mux *http.ServeMux) {
\tmux.HandleFunc(\"POST /payments\", createPaymentRoute)
\tmux.HandleFunc(\"/legacy\", legacyHandler)
}
";

const HANDLERS: &str = "package main

import \"net/http\"

func createPaymentRoute(w http.ResponseWriter, r *http.Request) {
\tsavePayment()
}

func legacyHandler(w http.ResponseWriter, r *http.Request) {}
";

const REPO: &str = "package main

func savePayment() {}
";

#[test]
fn a_method_prefixed_route_is_reported_and_an_unprefixed_one_is_not() {
    let g = index_go(&[("routes.go", ROUTES), ("handlers.go", HANDLERS), ("repo.go", REPO)]);
    let report = compute_file_impact(&g, "repo.go");
    let paths: Vec<String> = report.direct.into_iter().map(|d| d.path).collect();
    assert_eq!(paths, vec!["handlers::createPaymentRoute".to_string()]);
    assert_eq!(report.api, vec!["POST /payments".to_string()]);
}

fn dependents(ds: Vec<impact_core::Dependent>) -> Vec<(String, String, usize, Confidence)> {
    ds.into_iter().map(|d| (d.path, d.file, d.line, d.confidence)).collect()
}

#[test]
fn same_package_calls_across_files_and_a_go_test() {
    let g = index_go(&[
        ("util.go", "package main\n\nfunc Helper() {}\n"),
        ("service.go", "package main\n\nfunc Process() {\n\tHelper()\n}\n"),
        ("caller.go", "package main\n\ntype Consumer struct{}\n\nfunc (c Consumer) Run() {\n\tProcess()\n}\n"),
        (
            "service_test.go",
            "package main\n\nimport \"testing\"\n\nfunc TestProcess(t *testing.T) {\n\tProcess()\n}\n",
        ),
    ]);
    assert_eq!(g.node_count(), 5);
    let report = compute_file_impact(&g, "util.go");
    assert_eq!(
        dependents(report.direct),
        vec![("service::Process".to_string(), "service.go".to_string(), 3, Confidence::Exact)]
    );
    assert_eq!(
        dependents(report.indirect),
        vec![
            ("caller::Consumer::Run".to_string(), "caller.go".to_string(), 5, Confidence::Exact),
            ("service_test::TestProcess".to_string(), "service_test.go".to_string(), 5, Confidence::Exact),
        ]
    );
    assert_eq!(report.tests, 1);
}

#[test]
fn a_package_selector_is_evidence_and_a_same_named_method_is_not() {
    let g = index_go(&[
        ("a/util.go", "package a\n\nfunc Prune(n int) int {\n\treturn n\n}\n"),
        (
            "b/consumer.go",
            "package b\n\nimport \"example.com/x/a\"\n\nfunc Consume() int {\n\treturn a.Prune(1)\n}\n",
        ),
        (
            "b/printer.go",
            "package b\n\ntype Printer struct{}\n\nfunc (p Printer) Prune(n int) int {\n\treturn n\n}\n\nfunc (p Printer) Run() int {\n\treturn p.Prune(2)\n}\n",
        ),
    ]);
    let report = compute_file_impact(&g, "a/util.go");
    let got: Vec<(String, Confidence)> = report.direct.into_iter().map(|d| (d.path, d.confidence)).collect();
    assert_eq!(got, vec![("b::consumer::Consume".to_string(), Confidence::Exact)]);
}
