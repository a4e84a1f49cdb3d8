use impact_core::{
    ContractKind, ContractRole, DetectorConfig, EdgeKind, GoAdapter, NodeKind, RefTarget, SourceFile, Syntax,
};

/// A named node filling `field` of its parent.
fn n(kind: &str, field: Option<&str>, text: &str, lines: (usize, usize), children: Vec<Syntax>) -> Syntax {
    Syntax {
        kind: kind.to_string(),
        field: field.map(|f| f.to_string()),
        named: true,
        text: text.to_string(),
        line: lines.0,
        end_line: lines.1,
        children,
    }
}

/// A named leaf.
fn leaf(kind: &str, field: Option<&str>, text: &str, line: usize) -> Syntax {
    n(kind, field, text, (line, line), vec![])
}

/// Punctuation or a keyword.
fn tok(text: &str, line: usize) -> Syntax {
    Syntax {
        kind: text.to_string(),
        field: None,
        named: false,
        text: text.to_string(),
        line,
        end_line: line,
        children: vec![],
    }
}

fn args(line: usize, items: Vec<Syntax>) -> Syntax {
    let mut cs = vec![tok("(", line)];
    for (i, it) in items.into_iter().enumerate() {
        if i > 0 {
            cs.push(tok(",", line));
        }
        cs.push(it);
    }
    cs.push(tok(")", line));
    n("argument_list", Some("arguments"), "(...)", (line, line), cs)
}

fn selector(field: Option<&str>, operand: Syntax, name: &str, line: usize) -> Syntax {
    let text = format!("{}.{}", operand.text, name);
    let mut operand = operand;
    operand.field = Some("operand".to_string());
    n(
        "selector_expression",
        field,
        &text,
        (line, line),
        vec![operand, tok(".", line), leaf("field_identifier", Some("field"), name, line)],
    )
}

fn call(function: Syntax, arguments: Syntax, line: usize) -> Syntax {
    let mut function = function;
    function.field = Some("function".to_string());
    n("call_expression", None, "call", (line, line), vec![function, arguments])
}

fn statement(e: Syntax) -> Syntax {
    let line = e.line;
    n("expression_statement", None, "stmt", (line, line), vec![e])
}

fn block(lines: (usize, usize), stmts: Vec<Syntax>) -> Syntax {
    let mut cs = vec![tok("{", lines.0)];
    cs.extend(stmts);
    cs.push(tok("}", lines.1));
    n("block", Some("body"), "{...}", lines, cs)
}

fn empty_params(line: usize) -> Syntax {
    n("parameter_list", Some("parameters"), "()", (line, line), vec![tok("(", line), tok(")", line)])
}

fn param(field: &str, name: &str, ty: Syntax, line: usize) -> Syntax {
    let text = format!("({name} {})", ty.text);
    let mut ty = ty;
    ty.field = Some("type".to_string());
    n(
        "parameter_list",
        Some(field),
        &text,
        (line, line),
        vec![
            tok("(", line),
            n(
                "parameter_declaration",
                None,
                &text[1..text.len() - 1],
                (line, line),
                vec![leaf("identifier", Some("name"), name, line), ty],
            ),
            tok(")", line),
        ],
    )
}

fn pointer(to: Syntax, line: usize) -> Syntax {
    let text = format!("*{}", to.text);
    n("pointer_type", None, &text, (line, line), vec![tok("*", line), to])
}

/// ```go
/// package svc
///
/// import "example.com/x/internal/store"
///
/// type Handler struct {
///     Repo store.Repo
/// }
///
/// func (h *Handler) Serve() {
///     h.Repo.Save()
///     helper()
/// }
///
/// func helper() {}
///
/// var db = store.Open()
///
/// func routes(mux *http.ServeMux) {
///     mux.HandleFunc("GET /items", h.List)
/// }
/// ```
fn handler_file(path: &str, source: &str) -> SourceFile {
    let package = n("package_clause", None, "package svc", (1, 1), vec![tok("package", 1), leaf("package_identifier", None, "svc", 1)]);
    let import = n(
        "import_declaration",
        None,
        "import \"example.com/x/internal/store\"",
        (3, 3),
        vec![
            tok("import", 3),
            n(
                "import_spec",
                None,
                "\"example.com/x/internal/store\"",
                (3, 3),
                vec![leaf("interpreted_string_literal", Some("path"), "\"example.com/x/internal/store\"", 3)],
            ),
        ],
    );
    let handler_type = n(
        "type_declaration",
        None,
        "type Handler struct {...}",
        (5, 7),
        vec![
            tok("type", 5),
            n(
                "type_spec",
                None,
                "Handler struct {...}",
                (5, 7),
                vec![
                    leaf("type_identifier", Some("name"), "Handler", 5),
                    n(
                        "struct_type",
                        Some("type"),
                        "struct {...}",
                        (5, 7),
                        vec![
                            tok("struct", 5),
                            n(
                                "field_declaration_list",
                                None,
                                "{...}",
                                (5, 7),
                                vec![
                                    tok("{", 5),
                                    n(
                                        "field_declaration",
                                        None,
                                        "Repo store.Repo",
                                        (6, 6),
                                        vec![
                                            leaf("field_identifier", Some("name"), "Repo", 6),
                                            n(
                                                "qualified_type",
                                                Some("type"),
                                                "store.Repo",
                                                (6, 6),
                                                vec![
                                                    leaf("package_identifier", Some("package"), "store", 6),
                                                    tok(".", 6),
                                                    leaf("type_identifier", Some("name"), "Repo", 6),
                                                ],
                                            ),
                                        ],
                                    ),
                                    tok("}", 7),
                                ],
                            ),
                        ],
                    ),
                ],
            ),
        ],
    );
    let serve = n(
        "method_declaration",
        None,
        "func (h *Handler) Serve() {...}",
        (9, 12),
        vec![
            tok("func", 9),
            param("receiver", "h", pointer(leaf("type_identifier", None, "Handler", 9), 9), 9),
            leaf("field_identifier", Some("name"), "Serve", 9),
            empty_params(9),
            block(
                (9, 12),
                vec![
                    statement(call(
                        selector(None, selector(None, leaf("identifier", None, "h", 10), "Repo", 10), "Save", 10),
                        args(10, vec![]),
                        10,
                    )),
                    statement(call(leaf("identifier", None, "helper", 11), args(11, vec![]), 11)),
                ],
            ),
        ],
    );
    let helper = n(
        "function_declaration",
        None,
        "func helper() {}",
        (14, 14),
        vec![tok("func", 14), leaf("identifier", Some("name"), "helper", 14), empty_params(14), block((14, 14), vec![])],
    );
    let db = n(
        "var_declaration",
        None,
        "var db = store.Open()",
        (16, 16),
        vec![
            tok("var", 16),
            n(
                "var_spec",
                None,
                "db = store.Open()",
                (16, 16),
                vec![
                    leaf("identifier", Some("name"), "db", 16),
                    tok("=", 16),
                    n(
                        "expression_list",
                        Some("value"),
                        "store.Open()",
                        (16, 16),
                        vec![call(selector(None, leaf("identifier", None, "store", 16), "Open", 16), args(16, vec![]), 16)],
                    ),
                ],
            ),
        ],
    );
    let routes = n(
        "function_declaration",
        None,
        "func routes(mux *http.ServeMux) {...}",
        (18, 20),
        vec![
            tok("func", 18),
            leaf("identifier", Some("name"), "routes", 18),
            param(
                "parameters",
                "mux",
                pointer(
                    n(
                        "qualified_type",
                        None,
                        "http.ServeMux",
                        (18, 18),
                        vec![
                            leaf("package_identifier", Some("package"), "http", 18),
                            tok(".", 18),
                            leaf("type_identifier", Some("name"), "ServeMux", 18),
                        ],
                    ),
                    18,
                ),
                18,
            ),
            block(
                (18, 20),
                vec![statement(call(
                    selector(None, leaf("identifier", None, "mux", 19), "HandleFunc", 19),
                    args(
                        19,
                        vec![
                            leaf("interpreted_string_literal", None, "\"GET /items\"", 19),
                            selector(None, leaf("identifier", None, "h", 19), "List", 19),
                        ],
                    ),
                    19,
                ))],
            ),
        ],
    );
    let root = n("source_file", None, source, (1, 21), vec![package, import, handler_type, serve, helper, db, routes]);
    SourceFile { path: path.to_string(), source: source.to_string(), root }
}

const SOURCE: &str = "package svc\n\nimport \"example.com/x/internal/store\"\n";

fn symbols(a: &GoAdapter, f: &SourceFile) -> Vec<(NodeKind, String, usize, usize, bool, bool)> {
    a.extract_symbols(f)
        .into_iter()
        .map(|d| (d.kind, d.qualified_path, d.line, d.end_line, d.is_test, d.is_generated))
        .collect()
}

fn target_text(t: &RefTarget) -> String {
    match t {
        RefTarget::Module(m) => format!("module {m}"),
        RefTarget::ModuleDefault(m) => format!("default {m}"),
        RefTarget::Opaque => "opaque".to_string(),
        RefTarget::Unscoped => "unscoped".to_string(),
    }
}

#[test]
fn go_adapter_identity() {
    let a = GoAdapter::default();
    assert_eq!(a.language_id(), "go");
    assert_eq!(a.file_globs(), vec!["**/*.go".to_string()]);
}

#[test]
fn go_symbols_of_a_file() {
    let a = GoAdapter::default();
    let f = handler_file("svc/handler.go", SOURCE);
    assert_eq!(
        symbols(&a, &f),
        vec![
            (NodeKind::Type, "svc::handler::Handler".to_string(), 5, 7, false, false),
            (NodeKind::Function, "svc::handler::Handler::Serve".to_string(), 9, 12, false, false),
            (NodeKind::Function, "svc::handler::helper".to_string(), 14, 14, false, false),
            (NodeKind::Field, "svc::handler::db".to_string(), 16, 16, false, false),
            (NodeKind::Function, "svc::handler::routes".to_string(), 18, 20, false, false),
        ]
    );
}

#[test]
fn go_generated_files_and_tests() {
    let a = GoAdapter::default();
    let generated = handler_file("svc/handler.go", "// Code generated by mockgen. DO NOT EDIT.\r\npackage svc\n");
    assert!(a.extract_symbols(&generated).iter().all(|d| d.is_generated));
    let near_miss = handler_file("svc/handler.go", "// Code generated by hand. DO NOT EDIT\npackage svc\n");
    assert!(a.extract_symbols(&near_miss).iter().all(|d| !d.is_generated));
    // Only `Test`-prefixed functions of a `_test.go` file are tests: none here.
    let test_file = handler_file("svc/handler_test.go", SOURCE);
    assert!(a.extract_symbols(&test_file).iter().all(|d| !d.is_test));
    assert_eq!(a.extract_symbols(&test_file)[1].qualified_path, "svc::handler_test::Handler::Serve");
}

#[test]
fn go_references_carry_their_scope_evidence() {
    let a = GoAdapter::default();
    let f = handler_file("svc/handler.go", SOURCE);
    let got: Vec<(String, String, EdgeKind, String)> = a
        .extract_references(&f)
        .into_iter()
        .map(|r| (r.from_qualified_path, r.to_name, r.kind, target_text(&r.to_target)))
        .collect();
    assert_eq!(
        got,
        vec![
            (
                "svc::handler::Handler::Serve".to_string(),
                "Save".to_string(),
                EdgeKind::Calls,
                "module store".to_string()
            ),
            (
                "svc::handler::Handler::Serve".to_string(),
                "helper".to_string(),
                EdgeKind::Calls,
                "module svc::handler".to_string()
            ),
            ("svc::handler::db".to_string(), "Open".to_string(), EdgeKind::Calls, "module store".to_string()),
            ("svc::handler::routes".to_string(), "HandleFunc".to_string(), EdgeKind::Calls, "opaque".to_string()),
        ]
    );
}

#[test]
fn go_net_http_routes() {
    let f = handler_file("svc/handler.go", SOURCE);
    let routes = GoAdapter::default().extract_contract_refs(&f);
    assert_eq!(routes.len(), 1);
    assert_eq!(routes[0].contract_kind, ContractKind::ApiRoute);
    assert_eq!(routes[0].contract_id, "GET /items");
    assert_eq!(routes[0].symbol_name, "List");
    assert_eq!(routes[0].role, ContractRole::Produces);
    let mut config = DetectorConfig::default();
    config.api_frameworks = vec!["axum".to_string()];
    assert!(GoAdapter::new(config).extract_contract_refs(&f).is_empty());
}
