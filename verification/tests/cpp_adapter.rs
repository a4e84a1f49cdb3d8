use impact_core::cpp::cpp_module_prefix_text;
use impact_core::go::{is_generated_file, module_prefix, package_module, qualify_text};
use impact_core::{CppAdapter, EdgeKind, NodeKind, RefTarget, SourceFile, Syntax};

fn n(kind: &str, field: Option<&str>, text: &str, lines: (usize, usize), children: Vec<Syntax>) -> Syntax {
    Syntax {
        kind: kind.to_string(),
        field: field.map(|f| f.to_string()),
        named: true,
        text: text.to_string(),
        line: lines.0,
        end_line: lines.1,
        children,
    }
}

fn leaf(kind: &str, field: Option<&str>, text: &str, line: usize) -> Syntax {
    n(kind, field, text, (line, line), vec![])
}

fn tok(text: &str, line: usize) -> Syntax {
    Syntax {
        kind: text.to_string(),
        field: None,
        named: false,
        text: text.to_string(),
        line,
        end_line: line,
        children: vec![],
    }
}

fn no_args(line: usize) -> Syntax {
    n("argument_list", Some("arguments"), "()", (line, line), vec![tok("(", line), tok(")", line)])
}

fn call_stmt(function: Syntax, line: usize) -> Syntax {
    let mut function = function;
    function.field = Some("function".to_string());
    let call = n("call_expression", None, "call()", (line, line), vec![function, no_args(line)]);
    n("expression_statement", None, "call();", (line, line), vec![call, tok(";", line)])
}

fn body(lines: (usize, usize), stmts: Vec<Syntax>) -> Syntax {
    let mut cs = vec![tok("{", lines.0)];
    cs.extend(stmts);
    cs.push(tok("}", lines.1));
    n("compound_statement", Some("body"), "{...}", lines, cs)
}

fn function(name: Syntax, lines: (usize, usize), stmts: Vec<Syntax>) -> Syntax {
    let line = lines.0;
    let mut name = name;
    name.field = Some("declarator".to_string());
    let declarator = n(
        "function_declarator",
        Some("declarator"),
        "f()",
        (line, line),
        vec![name, n("parameter_list", Some("parameters"), "()", (line, line), vec![tok("(", line), tok(")", line)])],
    );
    n(
        "function_definition",
        None,
        "f() {...}",
        lines,
        vec![leaf("primitive_type", Some("type"), "void", line), declarator, body(lines, stmts)],
    )
}

fn field_call(receiver: Syntax, op: &str, name: &str, line: usize) -> Syntax {
    let mut receiver = receiver;
    receiver.field = Some("argument".to_string());
    let text = format!("{}{op}{name}", receiver.text);
    n(
        "field_expression",
        None,
        &text,
        (line, line),
        vec![receiver, tok(op, line), leaf("field_identifier", Some("field"), name, line)],
    )
}

fn qualified(scope: &str, name: Syntax, line: usize) -> Syntax {
    let text = format!("{scope}::{}", name.text);
    let mut name = name;
    name.field = Some("name".to_string());
    n(
        "qualified_identifier",
        None,
        &text,
        (line, line),
        vec![leaf("namespace_identifier", Some("scope"), scope, line), tok("::", line), name],
    )
}

/// ```cpp
/// namespace billing {
/// class PaymentService {
///  public:
///   void charge() { validate(); this->log(); }
/// };
/// }
///
/// void billing::PaymentService::refund() { Util::audit(); obj.run(); }
///
/// template <typename T> void twice() { helper(); PaymentService::create(); }
/// ```
fn service_file() -> SourceFile {
    let class = n(
        "class_specifier",
        None,
        "class PaymentService {...}",
        (2, 5),
        vec![
            tok("class", 2),
            leaf("type_identifier", Some("name"), "PaymentService", 2),
            n(
                "field_declaration_list",
                Some("body"),
                "{...}",
                (2, 5),
                vec![
                    tok("{", 2),
                    n("access_specifier", None, "public", (3, 3), vec![tok("public", 3)]),
                    tok(":", 3),
                    function(
                        leaf("field_identifier", None, "charge", 4),
                        (4, 4),
                        vec![
                            call_stmt(leaf("identifier", None, "validate", 4), 4),
                            call_stmt(field_call(leaf("this", None, "this", 4), "->", "log", 4), 4),
                        ],
                    ),
                    tok("}", 5),
                ],
            ),
        ],
    );
    let namespace = n(
        "namespace_definition",
        None,
        "namespace billing {...}",
        (1, 6),
        vec![
            tok("namespace", 1),
            leaf("namespace_identifier", Some("name"), "billing", 1),
            n("declaration_list", Some("body"), "{...}", (1, 6), vec![tok("{", 1), class, tok(";", 5), tok("}", 6)]),
        ],
    );
    let refund = function(
        qualified("billing", qualified("PaymentService", leaf("identifier", None, "refund", 8), 8), 8),
        (8, 8),
        vec![
            call_stmt(qualified("Util", leaf("identifier", None, "audit", 8), 8), 8),
            call_stmt(field_call(leaf("identifier", None, "obj", 8), ".", "run", 8), 8),
        ],
    );
    let twice = function(
        leaf("identifier", None, "twice", 10),
        (10, 10),
        vec![
            call_stmt(leaf("identifier", None, "helper", 10), 10),
            call_stmt(qualified("PaymentService", leaf("identifier", None, "create", 10), 10), 10),
        ],
    );
    let template = n(
        "template_declaration",
        None,
        "template <typename T> ...",
        (10, 10),
        vec![
            tok("template", 10),
            n("template_parameter_list", Some("parameters"), "<typename T>", (10, 10), vec![]),
            twice,
        ],
    );
    let root = n("translation_unit", None, "", (1, 11), vec![namespace, refund, template]);
    SourceFile { path: "src/billing/service.cpp".to_string(), source: String::new(), root }
}

#[test]
fn cpp_adapter_identity() {
    let a = CppAdapter::new();
    assert_eq!(a.language_id(), "cpp");
    assert_eq!(
        a.file_globs(),
        ["**/*.cpp", "**/*.cc", "**/*.cxx", "**/*.c++", "**/*.hpp", "**/*.hh", "**/*.hxx", "**/*.h"]
            .iter()
            .map(|s| s.to_string())
            .collect::<Vec<_>>()
    );
    assert!(a.extract_contract_refs(&service_file()).is_empty());
}

#[test]
fn cpp_symbols_follow_namespaces_and_classes() {
    let got: Vec<(NodeKind, String, usize, usize)> = CppAdapter::new()
        .extract_symbols(&service_file())
        .into_iter()
        .map(|d| (d.kind, d.qualified_path, d.line, d.end_line))
        .collect();
    assert_eq!(
        got,
        vec![
            (NodeKind::Type, "src::billing::service::billing::PaymentService".to_string(), 2, 5),
            (NodeKind::Function, "src::billing::service::billing::PaymentService::charge".to_string(), 4, 4),
            (NodeKind::Function, "src::billing::service::billing::PaymentService::refund".to_string(), 8, 8),
            (NodeKind::Function, "src::billing::service::twice".to_string(), 10, 10),
        ]
    );
}

fn target_text(t: &RefTarget) -> String {
    match t {
        RefTarget::Module(m) => format!("module {m}"),
        RefTarget::ModuleDefault(m) => format!("default {m}"),
        RefTarget::Opaque => "opaque".to_string(),
        RefTarget::Unscoped => "unscoped".to_string(),
    }
}

#[test]
fn cpp_calls_with_their_targets() {
    let got: Vec<(String, String, String)> = CppAdapter::new()
        .extract_references(&service_file())
        .into_iter()
        .map(|r| {
            assert_eq!(r.kind, EdgeKind::Calls);
            (r.from_qualified_path, r.to_name, target_text(&r.to_target))
        })
        .collect();
    let charge = "src::billing::service::billing::PaymentService::charge".to_string();
    let refund = "src::billing::service::billing::PaymentService::refund".to_string();
    let twice = "src::billing::service::twice".to_string();
    assert_eq!(
        got,
        vec![
            (charge.clone(), "validate".to_string(), "unscoped".to_string()),
            (charge, "log".to_string(), "module src::billing::service".to_string()),
            (refund.clone(), "audit".to_string(), "opaque".to_string()),
            (refund, "run".to_string(), "opaque".to_string()),
            (twice.clone(), "helper".to_string(), "unscoped".to_string()),
            (twice, "create".to_string(), "module src::billing::service".to_string()),
        ]
    );
}

#[test]
fn module_prefixes() {
    assert_eq!(cpp_module_prefix_text("src/billing/service.cpp"), "src::billing::service");
    assert_eq!(cpp_module_prefix_text("include/a.hh"), "include::a");
    assert_eq!(cpp_module_prefix_text("x\\y.c++"), "x::y");
    assert_eq!(cpp_module_prefix_text("notes.txt"), "notes.txt");
    assert_eq!(module_prefix("payment/service.go"), "payment::service");
    assert_eq!(module_prefix("/a//b.go"), "a::b");
    assert_eq!(package_module("payment::service"), "payment");
    assert_eq!(package_module("main"), "");
    assert_eq!(qualify_text("", "f"), "f");
    assert_eq!(qualify_text("m", "f"), "m::f");
}

#[test]
fn go_generated_marker() {
    assert!(is_generated_file("package x\n// Code generated by stringer. DO NOT EDIT.\n"));
    assert!(!is_generated_file("// Code generated by stringer. DO NOT EDIT.x\n"));
    assert!(!is_generated_file("  // Code generated by x. DO NOT EDIT.\n"));
}
