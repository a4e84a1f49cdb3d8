//! The C++ adapter: functions (free, inline methods, out-of-line `Type::method`
//! definitions) and classes/structs (`symbols`), and calls (`references`). No test or
//! contract detection.
//!
//! An out-of-line definition's declarator is a `qualified_identifier` (`Foo::bar`), whose
//! whole text becomes the qualified-path suffix. C++ has no file-scoped imports
//! (`#include` pulls in text, not bindings), so an unresolved bare name is `Unscoped`:
//! project-wide structural resolution is the best evidence there is.
use vstd::prelude::*;

use crate::adapter::{ContractRef, RefDecl, RefDeclView, RefTarget, RefTargetView, SymbolDecl, SymbolDeclView};
use crate::diff::trim_ws;
use crate::engine::string_views;
use crate::go::{decl_at, decl_views, module_path_of, module_path_text, qualify, qualify_text, slashes, to_slashes};
use crate::go_calls::{opt_str, ref_views};
use crate::graph::{EdgeKind, NodeKind};
use crate::parse::{parse_cpp, parsed_file, tree_sitter_cpp_listing, ParseFailure};
use crate::scope::{bare_target, qualified_target, FileScope, FileScopeView};
use crate::syntax::{
    child_by_field, child_by_field_name, field_index_from, field_text, field_text_of, is_kind, lemma_field_index,
    lemma_named_index, named_child, named_child_at, named_index_from, opt_text, ref_text, SourceFile, Syntax,
};
use crate::text::{chars_eq_str, chars_of, ends_with, has_suffix, slice_chars, string_of};

verus! {

// ---------------------------------------------------------------------------------------
// Paths
// ---------------------------------------------------------------------------------------
/// The source-file extensions the adapter claims, in the order they are tried.
pub open spec fn cpp_extensions() -> Seq<Seq<char>> {
    seq![".cpp"@, ".cc"@, ".cxx"@, ".c++"@, ".hpp"@, ".hh"@, ".hxx"@, ".h"@]
}

/// `p` without the first extension of `exts[i..]` it ends with.
pub open spec fn stem_from(p: Seq<char>, exts: Seq<Seq<char>>, i: int) -> Seq<char>
    decreases exts.len() - i,
{
    if i < 0 || i >= exts.len() {
        p
    } else if has_suffix(p, exts[i]) {
        p.take(p.len() - exts[i].len())
    } else {
        stem_from(p, exts, i + 1)
    }
}

/// The module a C++ file's symbols live under: `src/payment/service.cpp` gives
/// `src::payment::service`.
pub open spec fn cpp_module_prefix(rel: Seq<char>) -> Seq<char> {
    module_path_of(stem_from(to_slashes(rel), cpp_extensions(), 0))
}

fn extension(i: usize) -> (e: &'static str)
    requires
        i < 8,
    ensures
        e@ == cpp_extensions()[i as int],
{
    if i == 0 {
        ".cpp"
    } else if i == 1 {
        ".cc"
    } else if i == 2 {
        ".cxx"
    } else if i == 3 {
        ".c++"
    } else if i == 4 {
        ".hpp"
    } else if i == 5 {
        ".hh"
    } else if i == 6 {
        ".hxx"
    } else {
        ".h"
    }
}

pub fn cpp_module_prefix_text(rel_path: &str) -> (r: String)
    ensures
        r@ == cpp_module_prefix(rel_path@),
{
    let cs = chars_of(rel_path);
    let path = slashes(cs.as_slice());
    let ghost exts = cpp_extensions();
    let mut i: usize = 0;
    while i < 8
        invariant
            i <= 8,
            exts == cpp_extensions(),
            exts.len() == 8,
            path@ == to_slashes(rel_path@),
            stem_from(path@, exts, 0) == stem_from(path@, exts, i as int),
        decreases 8 - i,
    {
        let e = chars_of(extension(i));
        if ends_with(path.as_slice(), e.as_slice()) {
            let stem = slice_chars(path.as_slice(), 0, path.len() - e.len());
            proof {
                assert(stem@ =~= path@.take(path@.len() - e@.len()));
                assert(e@ == exts[i as int]);
                assert(has_suffix(path@, exts[i as int]));
                assert(stem_from(path@, exts, i as int) == path@.take(path@.len() - exts[i as int].len()));
                assert(path@ == to_slashes(rel_path@));
            }
            return module_path_text(stem.as_slice());
        }
        i = i + 1;
    }
    module_path_text(path.as_slice())
}

// ---------------------------------------------------------------------------------------
// Declarations
// ---------------------------------------------------------------------------------------
/// The `function_declarator` inside a (possibly pointer- or reference-returning)
/// declarator: a `declarator` field is followed; a `reference_declarator`, which labels
/// no field, is entered through its first named child.
pub open spec fn function_declarator(n: Syntax) -> Option<Syntax>
    decreases n,
{
    if n.kind@ == "function_declarator"@ {
        Some(n)
    } else {
        match field_index_from(n.children@, "declarator"@, 0) {
            Some(j) => if 0 <= j < n.children@.len() {
                function_declarator(n.children@[j])
            } else {
                None
            },
            None => if n.kind@ == "reference_declarator"@ {
                match named_index_from(n.children@, 0, 0) {
                    Some(j) => if 0 <= j < n.children@.len() {
                        function_declarator(n.children@[j])
                    } else {
                        None
                    },
                    None => None,
                }
            } else {
                None
            },
        }
    }
}

fn find_function_declarator(n: &Syntax) -> (r: Option<&Syntax>)
    ensures
        match function_declarator(*n) {
            Some(d) => r == Some(&d),
            None => r is None,
        },
    decreases n,
{
    if is_kind(n, "function_declarator") {
        return Some(n);
    }
    proof {
        lemma_field_index(n.children@, "declarator"@, 0);
        lemma_named_index(n.children@, 0, 0);
    }
    match child_by_field_name(n, "declarator") {
        Some(inner) => find_function_declarator(inner),
        None => if is_kind(n, "reference_declarator") {
            match named_child_at(n, 0) {
                Some(c) => find_function_declarator(c),
                None => None,
            }
        } else {
            None
        },
    }
}

/// The declared name of a `function_definition`: `(true, name)` for a single segment (a
/// free function, inline method, constructor, destructor or operator), `(false, suffix)`
/// for an out-of-line `Type::method` definition.
pub open spec fn declared_name(def: Syntax) -> Option<(bool, Seq<char>)> {
    match child_by_field(def, "declarator"@) {
        Some(outer) => match function_declarator(outer) {
            Some(d) => match child_by_field(d, "declarator"@) {
                Some(nn) => if nn.kind@ == "qualified_identifier"@ {
                    Some((false, nn.text@))
                } else if nn.kind@ == "identifier"@ || nn.kind@ == "field_identifier"@ || nn.kind@ == "destructor_name"@
                    || nn.kind@ == "operator_name"@ {
                    Some((true, nn.text@))
                } else {
                    None
                },
                None => None,
            },
            None => None,
        },
        None => None,
    }
}

fn function_declared_name(def: &Syntax) -> (r: Option<(bool, &String)>)
    ensures
        match declared_name(*def) {
            Some((seg, t)) => r matches Some((b, s)) && b == seg && s@ == t,
            None => r is None,
        },
{
    let outer = match child_by_field_name(def, "declarator") {
        Some(o) => o,
        None => return None,
    };
    let d = match find_function_declarator(outer) {
        Some(d) => d,
        None => return None,
    };
    let nn = match child_by_field_name(d, "declarator") {
        Some(n) => n,
        None => return None,
    };
    if is_kind(nn, "qualified_identifier") {
        Some((false, &nn.text))
    } else if is_kind(nn, "identifier") || is_kind(nn, "field_identifier") || is_kind(nn, "destructor_name") || is_kind(
        nn,
        "operator_name",
    ) {
        Some((true, &nn.text))
    } else {
        None
    }
}

/// The prefix a class or namespace opens: its name under `prefix`, or `prefix` itself
/// when it has none.
pub open spec fn opened_prefix(c: Syntax, prefix: Seq<char>) -> Seq<char> {
    match field_text(c, "name"@) {
        Some(name) => qualify(prefix, name),
        None => prefix,
    }
}

fn opened_prefix_text(c: &Syntax, prefix: &str) -> (r: String)
    ensures
        r@ == opened_prefix(*c, prefix@),
{
    match field_text_of(c, "name") {
        Some(name) => qualify_text(prefix, name.as_str()),
        None => prefix.to_string(),
    }
}

/// The symbols declared below `n`: one per function definition and one per named class
/// or struct, through namespaces, class bodies and templates; function bodies are not
/// entered.
pub open spec fn cpp_decls(n: Syntax, prefix: Seq<char>) -> Seq<SymbolDeclView>
    decreases n, 1int,
{
    cpp_decls_in(n.children@, n.children@.len() as int, prefix)
}

pub open spec fn cpp_decls_in(cs: Seq<Syntax>, k: int, prefix: Seq<char>) -> Seq<SymbolDeclView>
    decreases cs, k,
{
    if k <= 0 || k > cs.len() {
        Seq::empty()
    } else {
        cpp_decls_in(cs, k - 1, prefix) + cpp_decls_of(cs[k - 1], prefix)
    }
}

/// The body of `c` (the child filling `body`), with the declarations below it.
pub open spec fn body_decls(c: Syntax, prefix: Seq<char>) -> Seq<SymbolDeclView>
    decreases c, 2int,
{
    match field_index_from(c.children@, "body"@, 0) {
        Some(j) => if 0 <= j < c.children@.len() {
            cpp_decls(c.children@[j], prefix)
        } else {
            Seq::empty()
        },
        None => Seq::empty(),
    }
}

pub open spec fn cpp_decls_of(c: Syntax, prefix: Seq<char>) -> Seq<SymbolDeclView>
    decreases c, 3int,
{
    if c.kind@ == "function_definition"@ {
        match declared_name(c) {
            Some((_, name)) => seq![decl_at(NodeKind::Function, qualify(prefix, name), c, false, false)],
            None => Seq::empty(),
        }
    } else if c.kind@ == "class_specifier"@ || c.kind@ == "struct_specifier"@ {
        let own = match field_text(c, "name"@) {
            Some(name) => seq![decl_at(NodeKind::Type, qualify(prefix, name), c, false, false)],
            None => Seq::empty(),
        };
        own + body_decls(c, opened_prefix(c, prefix))
    } else if c.kind@ == "namespace_definition"@ {
        body_decls(c, opened_prefix(c, prefix))
    } else if c.kind@ == "template_declaration"@ {
        cpp_decls(c, prefix)
    } else {
        Seq::empty()
    }
}

fn push_body_decls(c: &Syntax, prefix: &str, out: &mut Vec<SymbolDecl>)
    ensures
        decl_views(final(out)@) == decl_views(old(out)@) + body_decls(*c, prefix@),
    decreases c, 2int,
{
    proof {
        lemma_field_index(c.children@, "body"@, 0);
    }
    let ghost base = decl_views(out@);
    match child_by_field_name(c, "body") {
        Some(b) => walk(b, prefix, out),
        None => {
            proof {
                assert(decl_views(out@) =~= base + Seq::<SymbolDeclView>::empty());
            }
        },
    }
}

fn push_decls_of(c: &Syntax, prefix: &str, out: &mut Vec<SymbolDecl>)
    ensures
        decl_views(final(out)@) == decl_views(old(out)@) + cpp_decls_of(*c, prefix@),
    decreases c, 3int,
{
    let ghost base = decl_views(out@);
    if is_kind(c, "function_definition") {
        match function_declared_name(c) {
            Some((_, name)) => {
                let d = SymbolDecl {
                    kind: NodeKind::Function,
                    qualified_path: qualify_text(prefix, name.as_str()),
                    line: c.line,
                    end_line: c.end_line,
                    is_test: false,
                    is_generated: false,
                    is_default_export: false,
                };
                out.push(d);
                proof {
                    assert(decl_views(out@) =~= base + cpp_decls_of(*c, prefix@));
                }
            },
            None => {
                proof {
                    assert(decl_views(out@) =~= base + Seq::<SymbolDeclView>::empty());
                }
            },
        }
    } else if is_kind(c, "class_specifier") || is_kind(c, "struct_specifier") {
        match field_text_of(c, "name") {
            Some(name) => {
                let d = SymbolDecl {
                    kind: NodeKind::Type,
                    qualified_path: qualify_text(prefix, name.as_str()),
                    line: c.line,
                    end_line: c.end_line,
                    is_test: false,
                    is_generated: false,
                    is_default_export: false,
                };
                out.push(d);
            },
            None => {},
        }
        let ghost mid = decl_views(out@);
        let inner = opened_prefix_text(c, prefix);
        push_body_decls(c, inner.as_str(), out);
        proof {
            let own = match field_text(*c, "name"@) {
                Some(name) => seq![decl_at(NodeKind::Type, qualify(prefix@, name), *c, false, false)],
                None => Seq::empty(),
            };
            assert(mid =~= base + own);
            assert(decl_views(out@) =~= base + cpp_decls_of(*c, prefix@));
        }
    } else if is_kind(c, "namespace_definition") {
        let inner = opened_prefix_text(c, prefix);
        push_body_decls(c, inner.as_str(), out);
    } else if is_kind(c, "template_declaration") {
        walk(c, prefix, out);
    } else {
        proof {
            assert(decl_views(out@) =~= base + Seq::<SymbolDeclView>::empty());
        }
    }
}

fn walk(n: &Syntax, prefix: &str, out: &mut Vec<SymbolDecl>)
    ensures
        decl_views(final(out)@) == decl_views(old(out)@) + cpp_decls(*n, prefix@),
    decreases n, 1int,
{
    let ghost base = decl_views(out@);
    let ghost cs = n.children@;
    let mut i: usize = 0;
    proof {
        assert(base + cpp_decls_in(cs, 0, prefix@) =~= base);
    }
    while i < n.children.len()
        invariant
            i <= cs.len(),
            cs == n.children@,
            decl_views(out@) == base + cpp_decls_in(cs, i as int, prefix@),
        decreases cs.len() - i,
    {
        push_decls_of(&n.children[i], prefix, out);
        proof {
            assert(base + cpp_decls_in(cs, i + 1, prefix@) =~= base + cpp_decls_in(cs, i as int, prefix@) + cpp_decls_of(
                cs[i as int],
                prefix@,
            ));
        }
        i = i + 1;
    }
}

/// Every function and class/struct a C++ file defines.
pub open spec fn cpp_symbols(path: Seq<char>, root: Syntax) -> Seq<SymbolDeclView> {
    cpp_decls(root, cpp_module_prefix(path))
}

// ---------------------------------------------------------------------------------------
// Scope
// ---------------------------------------------------------------------------------------
/// The names the subtree below `n` declares for the file's scope: every top-level
/// function named by a single segment, and every class/struct and its methods, through
/// namespaces and templates.
pub open spec fn cpp_scope_names(v: FileScopeView, n: Syntax) -> FileScopeView
    decreases n, 1int,
{
    scope_names_in(v, n.children@, n.children@.len() as int)
}

pub open spec fn scope_names_in(v: FileScopeView, cs: Seq<Syntax>, k: int) -> FileScopeView
    decreases cs, k,
{
    if k <= 0 || k > cs.len() {
        v
    } else {
        scope_names_of(scope_names_in(v, cs, k - 1), cs[k - 1])
    }
}

pub open spec fn body_names(v: FileScopeView, c: Syntax) -> FileScopeView
    decreases c, 2int,
{
    match field_index_from(c.children@, "body"@, 0) {
        Some(j) => if 0 <= j < c.children@.len() {
            cpp_scope_names(v, c.children@[j])
        } else {
            v
        },
        None => v,
    }
}

pub open spec fn scope_names_of(v: FileScopeView, c: Syntax) -> FileScopeView
    decreases c, 3int,
{
    if c.kind@ == "function_definition"@ {
        match declared_name(c) {
            Some((true, name)) => FileScopeView { locals: v.locals.insert(name), ..v },
            _ => v,
        }
    } else if c.kind@ == "class_specifier"@ || c.kind@ == "struct_specifier"@ {
        let v1 = match field_text(c, "name"@) {
            Some(name) => FileScopeView { locals: v.locals.insert(name), ..v },
            None => v,
        };
        body_names(v1, c)
    } else if c.kind@ == "namespace_definition"@ || c.kind@ == "template_declaration"@ {
        match field_index_from(c.children@, "body"@, 0) {
            Some(_) => body_names(v, c),
            None => cpp_scope_names(v, c),
        }
    } else {
        v
    }
}

/// A C++ file's scope: the names it declares; anything else is `Unscoped`.
pub open spec fn cpp_scope(root: Syntax, prefix: Seq<char>) -> FileScopeView {
    cpp_scope_names(
        FileScopeView {
            module: prefix,
            imports: Map::empty(),
            default_imports: Map::empty(),
            locals: Set::empty(),
            wildcards: Seq::empty(),
            unimported: RefTargetView::Unscoped,
        },
        root,
    )
}

fn declare_body_names(c: &Syntax, scope: &mut FileScope)
    ensures
        final(scope)@ == body_names(old(scope)@, *c),
    decreases c, 2int,
{
    proof {
        lemma_field_index(c.children@, "body"@, 0);
    }
    match child_by_field_name(c, "body") {
        Some(b) => declare_scope_names(b, scope),
        None => {},
    }
}

fn declare_names_of(c: &Syntax, scope: &mut FileScope)
    ensures
        final(scope)@ == scope_names_of(old(scope)@, *c),
    decreases c, 3int,
{
    if is_kind(c, "function_definition") {
        match function_declared_name(c) {
            Some((true, name)) => scope.declare_local(name.as_str()),
            _ => {},
        }
    } else if is_kind(c, "class_specifier") || is_kind(c, "struct_specifier") {
        match field_text_of(c, "name") {
            Some(name) => scope.declare_local(name.as_str()),
            None => {},
        }
        declare_body_names(c, scope);
    } else if is_kind(c, "namespace_definition") || is_kind(c, "template_declaration") {
        match child_by_field_name(c, "body") {
            Some(_) => declare_body_names(c, scope),
            None => declare_scope_names(c, scope),
        }
    }
}

fn declare_scope_names(n: &Syntax, scope: &mut FileScope)
    ensures
        final(scope)@ == cpp_scope_names(old(scope)@, *n),
    decreases n, 1int,
{
    let ghost v0 = scope@;
    let ghost cs = n.children@;
    let mut i: usize = 0;
    while i < n.children.len()
        invariant
            i <= cs.len(),
            cs == n.children@,
            scope@ == scope_names_in(v0, cs, i as int),
        decreases cs.len() - i,
    {
        declare_names_of(&n.children[i], scope);
        i = i + 1;
    }
}

// ---------------------------------------------------------------------------------------
// Calls
// ---------------------------------------------------------------------------------------
/// The leftmost identifier-like leaf below `n` (a template call, a parenthesized callee).
pub open spec fn first_ident(n: Syntax) -> Option<Seq<char>>
    decreases n, 1int,
{
    if n.kind@ == "identifier"@ || n.kind@ == "field_identifier"@ {
        Some(n.text@)
    } else {
        first_ident_in(n.children@, 0)
    }
}

pub open spec fn first_ident_in(cs: Seq<Syntax>, i: int) -> Option<Seq<char>>
    decreases cs, cs.len() - i,
{
    if i < 0 || i >= cs.len() {
        None
    } else {
        match first_ident(cs[i]) {
            Some(t) => Some(t),
            None => first_ident_in(cs, i + 1),
        }
    }
}

fn first_identifier_like(n: &Syntax) -> (r: Option<&String>)
    ensures
        ref_text(r) == first_ident(*n),
    decreases n, 1int,
{
    if is_kind(n, "identifier") || is_kind(n, "field_identifier") {
        return Some(&n.text);
    }
    let ghost cs = n.children@;
    let mut i: usize = 0;
    while i < n.children.len()
        invariant
            i <= cs.len(),
            cs == n.children@,
            first_ident(*n) == first_ident_in(cs, i as int),
        decreases cs.len() - i,
    {
        match first_identifier_like(&n.children[i]) {
            Some(t) => return Some(t),
            None => {},
        }
        i = i + 1;
    }
    None
}

/// The qualifier nearest the name in a `qualified_identifier` callee (`Foo` in
/// `a::b::Foo::bar`), read off the tree's `scope` fields.
pub open spec fn immediate_qualifier(n: Syntax) -> Option<Seq<char>> {
    match child_by_field(n, "scope"@) {
        Some(sc) => if sc.kind@ == "qualified_identifier"@ {
            field_text(sc, "name"@)
        } else {
            Some(sc.text@)
        },
        None => None,
    }
}

/// A callee's name and where it points: a bare name through the scope; `this->m()` to
/// this file's module; `obj.m()` through the receiver's text as a qualifier;
/// `Q::name()` through its nearest qualifier; anything else by its first identifier.
pub open spec fn cpp_call(scope: FileScopeView, callee: Syntax) -> (Seq<char>, RefTargetView) {
    if callee.kind@ == "identifier"@ {
        (callee.text@, bare_target(scope, callee.text@))
    } else if callee.kind@ == "field_expression"@ {
        let name = match field_text(callee, "field"@) {
            Some(t) => t,
            None => Seq::empty(),
        };
        let recv = trim_ws(
            match field_text(callee, "argument"@) {
                Some(t) => t,
                None => Seq::empty(),
            },
        );
        (name, if recv == "this"@ { RefTargetView::Module(scope.module) } else { qualified_target(scope, recv) })
    } else if callee.kind@ == "qualified_identifier"@ {
        let name = match field_text(callee, "name"@) {
            Some(t) => t,
            None => Seq::empty(),
        };
        (
            name,
            match immediate_qualifier(callee) {
                Some(q) => qualified_target(scope, q),
                None => RefTargetView::Opaque,
            },
        )
    } else {
        match first_ident(callee) {
            Some(n) => (n, bare_target(scope, n)),
            None => (Seq::empty(), RefTargetView::Opaque),
        }
    }
}

fn call_target(callee: &Syntax, scope: &FileScope) -> (r: (String, RefTarget))
    ensures
        (r.0@, r.1@) == cpp_call(scope@, *callee),
{
    if is_kind(callee, "identifier") {
        (callee.text.clone(), scope.bare(callee.text.as_str()))
    } else if is_kind(callee, "field_expression") {
        let name = match field_text_of(callee, "field") {
            Some(t) => t.clone(),
            None => String::new(),
        };
        let raw = match field_text_of(callee, "argument") {
            Some(t) => chars_of(t.as_str()),
            None => Vec::new(),
        };
        let recv = crate::diff::trim_chars(raw.as_slice());
        let target = if chars_eq_str(recv.as_slice(), "this") {
            scope.own()
        } else {
            let q = string_of(recv.as_slice());
            scope.qualified(q.as_str())
        };
        (name, target)
    } else if is_kind(callee, "qualified_identifier") {
        let name = match field_text_of(callee, "name") {
            Some(t) => t.clone(),
            None => String::new(),
        };
        let sc = child_by_field_name(callee, "scope");
        let target = match sc {
            Some(sc) => if is_kind(sc, "qualified_identifier") {
                match field_text_of(sc, "name") {
                    Some(q) => scope.qualified(q.as_str()),
                    None => RefTarget::Opaque,
                }
            } else {
                scope.qualified(sc.text.as_str())
            },
            None => RefTarget::Opaque,
        };
        (name, target)
    } else {
        match first_identifier_like(callee) {
            Some(n) => (n.clone(), scope.bare(n.as_str())),
            None => (String::new(), RefTarget::Opaque),
        }
    }
}

/// The calls made below `n`, in document order; `cur` is the function they belong to.
pub open spec fn cpp_refs(scope: FileScopeView, n: Syntax, prefix: Seq<char>, cur: Option<Seq<char>>) -> Seq<RefDeclView>
    decreases n, 1int,
{
    cpp_refs_in(scope, n.children@, n.children@.len() as int, prefix, cur)
}

pub open spec fn cpp_refs_in(scope: FileScopeView, cs: Seq<Syntax>, k: int, prefix: Seq<char>, cur: Option<Seq<char>>) -> Seq<
    RefDeclView,
>
    decreases cs, k,
{
    if k <= 0 || k > cs.len() {
        Seq::empty()
    } else {
        cpp_refs_in(scope, cs, k - 1, prefix, cur) + cpp_refs_of(scope, cs[k - 1], prefix, cur)
    }
}

pub open spec fn body_refs(scope: FileScopeView, c: Syntax, prefix: Seq<char>, cur: Option<Seq<char>>) -> Seq<RefDeclView>
    decreases c, 2int,
{
    match field_index_from(c.children@, "body"@, 0) {
        Some(j) => if 0 <= j < c.children@.len() {
            cpp_refs(scope, c.children@[j], prefix, cur)
        } else {
            Seq::empty()
        },
        None => Seq::empty(),
    }
}

/// The call a call expression records (inside a function, when its callee has a name).
pub open spec fn cpp_call_here(scope: FileScopeView, c: Syntax, cur: Option<Seq<char>>) -> Seq<RefDeclView> {
    match (cur, child_by_field(c, "function"@)) {
        (Some(from), Some(f)) => {
            let (name, t) = cpp_call(scope, f);
            if name.len() > 0 {
                seq![RefDeclView { from_qualified_path: from, to_name: name, kind: EdgeKind::Calls, to_target: t }]
            } else {
                Seq::empty()
            }
        },
        _ => Seq::empty(),
    }
}

pub open spec fn cpp_refs_of(scope: FileScopeView, c: Syntax, prefix: Seq<char>, cur: Option<Seq<char>>) -> Seq<RefDeclView>
    decreases c, 3int,
{
    if c.kind@ == "function_definition"@ {
        match declared_name(c) {
            Some((_, name)) => body_refs(scope, c, prefix, Some(qualify(prefix, name))),
            None => Seq::empty(),
        }
    } else if c.kind@ == "class_specifier"@ || c.kind@ == "struct_specifier"@ || c.kind@ == "namespace_definition"@ {
        body_refs(scope, c, opened_prefix(c, prefix), cur)
    } else if c.kind@ == "call_expression"@ {
        cpp_call_here(scope, c, cur) + cpp_refs(scope, c, prefix, cur)
    } else {
        cpp_refs(scope, c, prefix, cur)
    }
}

fn push_body_refs(scope: &FileScope, c: &Syntax, prefix: &str, cur: Option<&String>, out: &mut Vec<RefDecl>)
    ensures
        ref_views(final(out)@) == ref_views(old(out)@) + body_refs(scope@, *c, prefix@, opt_str(cur)),
    decreases c, 2int,
{
    proof {
        lemma_field_index(c.children@, "body"@, 0);
    }
    let ghost base = ref_views(out@);
    match child_by_field_name(c, "body") {
        Some(b) => collect_refs(scope, b, prefix, cur, out),
        None => {
            proof {
                assert(ref_views(out@) =~= base + Seq::<RefDeclView>::empty());
            }
        },
    }
}

fn push_refs_of(scope: &FileScope, c: &Syntax, prefix: &str, cur: Option<&String>, out: &mut Vec<RefDecl>)
    ensures
        ref_views(final(out)@) == ref_views(old(out)@) + cpp_refs_of(scope@, *c, prefix@, opt_str(cur)),
    decreases c, 3int,
{
    let ghost base = ref_views(out@);
    if is_kind(c, "function_definition") {
        match function_declared_name(c) {
            Some((_, name)) => {
                let q = qualify_text(prefix, name.as_str());
                push_body_refs(scope, c, prefix, Some(&q), out);
            },
            None => {
                proof {
                    assert(ref_views(out@) =~= base + Seq::<RefDeclView>::empty());
                }
            },
        }
    } else if is_kind(c, "class_specifier") || is_kind(c, "struct_specifier") || is_kind(c, "namespace_definition") {
        let inner = opened_prefix_text(c, prefix);
        push_body_refs(scope, c, inner.as_str(), cur, out);
    } else if is_kind(c, "call_expression") {
        if let Some(from) = cur {
            if let Some(f) = child_by_field_name(c, "function") {
                let (name, target) = call_target(f, scope);
                let nc = chars_of(name.as_str());
                if nc.len() > 0 {
                    let r = RefDecl { from_qualified_path: from.clone(), to_name: name, kind: EdgeKind::Calls, to_target: target };
                    out.push(r);
                }
            }
        }
        proof {
            assert(ref_views(out@) =~= base + cpp_call_here(scope@, *c, opt_str(cur)));
        }
        collect_refs(scope, c, prefix, cur, out);
        proof {
            assert(ref_views(out@) =~= base + cpp_refs_of(scope@, *c, prefix@, opt_str(cur)));
        }
    } else {
        collect_refs(scope, c, prefix, cur, out);
    }
}

fn collect_refs(scope: &FileScope, n: &Syntax, prefix: &str, cur: Option<&String>, out: &mut Vec<RefDecl>)
    ensures
        ref_views(final(out)@) == ref_views(old(out)@) + cpp_refs(scope@, *n, prefix@, opt_str(cur)),
    decreases n, 1int,
{
    let ghost base = ref_views(out@);
    let ghost cs = n.children@;
    let mut i: usize = 0;
    proof {
        assert(base + cpp_refs_in(scope@, cs, 0, prefix@, opt_str(cur)) =~= base);
    }
    while i < n.children.len()
        invariant
            i <= cs.len(),
            cs == n.children@,
            ref_views(out@) == base + cpp_refs_in(scope@, cs, i as int, prefix@, opt_str(cur)),
        decreases cs.len() - i,
    {
        push_refs_of(scope, &n.children[i], prefix, cur, out);
        proof {
            assert(base + cpp_refs_in(scope@, cs, i + 1, prefix@, opt_str(cur)) =~= base + cpp_refs_in(scope@, cs, i as int, prefix@, opt_str(cur))
                + cpp_refs_of(scope@, cs[i as int], prefix@, opt_str(cur)));
        }
        i = i + 1;
    }
}

/// Every call a C++ file makes from inside a function definition.
pub open spec fn cpp_references(path: Seq<char>, root: Syntax) -> Seq<RefDeclView> {
    cpp_refs(cpp_scope(root, cpp_module_prefix(path)), root, cpp_module_prefix(path), None)
}

// ---------------------------------------------------------------------------------------
// The adapter
// ---------------------------------------------------------------------------------------
/// The C++ language adapter.
#[derive(Default)]
pub struct CppAdapter;

impl CppAdapter {
    pub fn new() -> (a: Self) {
        CppAdapter
    }

    pub fn language_id(&self) -> (id: &'static str)
        ensures
            id@ == "cpp"@,
    {
        "cpp"
    }

    /// Parses a C++ file with tree-sitter's C++ grammar.
    pub fn parse_file(&self, path: &str, source: &str) -> (r: Result<SourceFile, ParseFailure>)
        ensures
            parsed_file(tree_sitter_cpp_listing(source@), path@, source@, r),
    {
        parse_cpp(path, source)
    }

    /// The files the adapter claims, one pattern per extension.
    pub fn file_globs(&self) -> (g: Vec<String>)
        ensures
            string_views(g@) == seq![
                "**/*.cpp"@,
                "**/*.cc"@,
                "**/*.cxx"@,
                "**/*.c++"@,
                "**/*.hpp"@,
                "**/*.hh"@,
                "**/*.hxx"@,
                "**/*.h"@,
            ],
    {
        let g = vec![
            "**/*.cpp".to_string(),
            "**/*.cc".to_string(),
            "**/*.cxx".to_string(),
            "**/*.c++".to_string(),
            "**/*.hpp".to_string(),
            "**/*.hh".to_string(),
            "**/*.hxx".to_string(),
            "**/*.h".to_string(),
        ];
        proof {
            assert(string_views(g@) =~= seq![
                "**/*.cpp"@,
                "**/*.cc"@,
                "**/*.cxx"@,
                "**/*.c++"@,
                "**/*.hpp"@,
                "**/*.hh"@,
                "**/*.hxx"@,
                "**/*.h"@,
            ]);
        }
        g
    }

    pub fn extract_symbols(&self, file: &SourceFile) -> (r: Vec<SymbolDecl>)
        ensures
            decl_views(r@) == cpp_symbols(file.path@, file.root),
    {
        let prefix = cpp_module_prefix_text(file.path.as_str());
        let mut out: Vec<SymbolDecl> = Vec::new();
        proof {
            assert(decl_views(out@) =~= Seq::<SymbolDeclView>::empty());
        }
        walk(&file.root, prefix.as_str(), &mut out);
        proof {
            assert(Seq::<SymbolDeclView>::empty() + cpp_decls(file.root, prefix@) =~= cpp_decls(file.root, prefix@));
        }
        out
    }

    pub fn extract_references(&self, file: &SourceFile) -> (r: Vec<RefDecl>)
        ensures
            ref_views(r@) == cpp_references(file.path@, file.root),
    {
        let prefix = cpp_module_prefix_text(file.path.as_str());
        let mut scope = FileScope::new(prefix.as_str(), RefTarget::Unscoped);
        declare_scope_names(&file.root, &mut scope);
        let mut out: Vec<RefDecl> = Vec::new();
        proof {
            assert(ref_views(out@) =~= Seq::<RefDeclView>::empty());
        }
        collect_refs(&scope, &file.root, prefix.as_str(), None, &mut out);
        proof {
            assert(Seq::<RefDeclView>::empty() + cpp_refs(scope@, file.root, prefix@, None) =~= cpp_refs(scope@, file.root, prefix@, None));
        }
        out
    }

    /// No contracts are detected in C++.
    pub fn extract_contract_refs(&self, file: &SourceFile) -> (r: Vec<ContractRef>)
        ensures
            r@.len() == 0,
    {
        Vec::new()
    }
}

// ---------------------------------------------------------------------------------------
// Where calls are recorded
// ---------------------------------------------------------------------------------------
/// Whether `n` or anything below it is a function definition.
pub open spec fn defines_function(n: Syntax) -> bool
    decreases n, 1int,
{
    n.kind@ == "function_definition"@ || defines_function_in(n.children@, n.children@.len() as int)
}

/// Whether one of the first `k` trees of `cs` defines a function.
pub open spec fn defines_function_in(cs: Seq<Syntax>, k: int) -> bool
    decreases cs, k,
{
    if k <= 0 || k > cs.len() {
        false
    } else {
        defines_function_in(cs, k - 1) || defines_function(cs[k - 1])
    }
}

proof fn lemma_no_definition_below(cs: Seq<Syntax>, k: int, j: int)
    requires
        0 <= j < k <= cs.len(),
        !defines_function_in(cs, k),
    ensures
        !defines_function(cs[j]),
    decreases k,
{
    if j < k - 1 {
        lemma_no_definition_below(cs, k - 1, j);
    }
}

proof fn lemma_refs_of_outside(scope: FileScopeView, c: Syntax, prefix: Seq<char>)
    requires
        !defines_function(c),
    ensures
        cpp_refs_of(scope, c, prefix, None) == Seq::<RefDeclView>::empty(),
    decreases c, 3int,
{
    if c.kind@ == "class_specifier"@ || c.kind@ == "struct_specifier"@ || c.kind@ == "namespace_definition"@ {
        lemma_body_refs_outside(scope, c, opened_prefix(c, prefix));
    } else if c.kind@ == "call_expression"@ {
        lemma_refs_outside(scope, c, prefix);
        assert(cpp_refs_of(scope, c, prefix, None) =~= Seq::<RefDeclView>::empty());
    } else {
        lemma_refs_outside(scope, c, prefix);
    }
}

proof fn lemma_body_refs_outside(scope: FileScopeView, c: Syntax, prefix: Seq<char>)
    requires
        !defines_function(c),
    ensures
        body_refs(scope, c, prefix, None) == Seq::<RefDeclView>::empty(),
    decreases c, 2int,
{
    if let Some(j) = field_index_from(c.children@, "body"@, 0) {
        if 0 <= j < c.children@.len() {
            lemma_no_definition_below(c.children@, c.children@.len() as int, j);
            assert(decreases_to!(c => c.children@[j]));
            lemma_refs_outside(scope, c.children@[j], prefix);
        }
    }
}

proof fn lemma_refs_outside(scope: FileScopeView, n: Syntax, prefix: Seq<char>)
    requires
        !defines_function(n),
    ensures
        cpp_refs(scope, n, prefix, None) == Seq::<RefDeclView>::empty(),
    decreases n, 1int,
{
    lemma_refs_in_outside(scope, n.children@, n.children@.len() as int, prefix);
}

proof fn lemma_refs_in_outside(scope: FileScopeView, cs: Seq<Syntax>, k: int, prefix: Seq<char>)
    requires
        !defines_function_in(cs, k),
    ensures
        cpp_refs_in(scope, cs, k, prefix, None) == Seq::<RefDeclView>::empty(),
    decreases cs, k,
{
    if 0 < k <= cs.len() {
        lemma_refs_in_outside(scope, cs, k - 1, prefix);
        lemma_refs_of_outside(scope, cs[k - 1], prefix);
        assert(cpp_refs_in(scope, cs, k, prefix, None) =~= Seq::<RefDeclView>::empty());
    }
}

/// A C++ call belongs to the function definition it sits in: a file that defines no
/// function yields no reference, whatever calls it holds.
pub proof fn law_no_reference_outside_a_function(path: Seq<char>, root: Syntax)
    requires
        !defines_function(root),
    ensures
        cpp_references(path, root) == Seq::<RefDeclView>::empty(),
{
    lemma_refs_outside(cpp_scope(root, cpp_module_prefix(path)), root, cpp_module_prefix(path));
}

proof fn lemma_refs_in_window(
    scope: FileScopeView,
    cs: Seq<Syntax>,
    k: int,
    j: int,
    prefix: Seq<char>,
    cur: Option<Seq<char>>,
)
    requires
        0 <= j < k <= cs.len(),
    ensures
        cpp_refs_in(scope, cs, j, prefix, cur).len() + cpp_refs_of(scope, cs[j], prefix, cur).len() <= cpp_refs_in(
            scope,
            cs,
            k,
            prefix,
            cur,
        ).len(),
        cpp_refs_in(scope, cs, k, prefix, cur).subrange(
            cpp_refs_in(scope, cs, j, prefix, cur).len() as int,
            (cpp_refs_in(scope, cs, j, prefix, cur).len() + cpp_refs_of(scope, cs[j], prefix, cur).len()) as int,
        ) == cpp_refs_of(scope, cs[j], prefix, cur),
    decreases k,
{
    let o = cpp_refs_in(scope, cs, j, prefix, cur).len() as int;
    let inner = cpp_refs_of(scope, cs[j], prefix, cur);
    if k == j + 1 {
        assert(cpp_refs_in(scope, cs, k, prefix, cur) == cpp_refs_in(scope, cs, j, prefix, cur) + inner);
        assert(cpp_refs_in(scope, cs, k, prefix, cur).subrange(o, o + inner.len()) =~= inner);
    } else {
        lemma_refs_in_window(scope, cs, k - 1, j, prefix, cur);
        let a = cpp_refs_in(scope, cs, k - 1, prefix, cur);
        let x = cpp_refs_of(scope, cs[k - 1], prefix, cur);
        assert(cpp_refs_in(scope, cs, k, prefix, cur) == a + x);
        assert((a + x).subrange(o, o + inner.len()) =~= a.subrange(o, o + inner.len()));
    }
}

/// Calls nest: inside anything but a definition that opens a new owner or scope, the
/// calls recorded below each child (a call's callee and its arguments, a receiver, an
/// operand) appear, in order, among the calls recorded for the whole node; so a call is
/// recorded at any depth of a function body, also inside another call.
pub proof fn law_nested_calls_are_recorded(
    scope: FileScopeView,
    c: Syntax,
    j: int,
    prefix: Seq<char>,
    cur: Option<Seq<char>>,
)
    requires
        c.kind@ != "function_definition"@,
        c.kind@ != "class_specifier"@,
        c.kind@ != "struct_specifier"@,
        c.kind@ != "namespace_definition"@,
        0 <= j < c.children@.len(),
    ensures
        exists|o: int|
            0 <= o && o + cpp_refs_of(scope, c.children@[j], prefix, cur).len() <= cpp_refs_of(scope, c, prefix, cur).len()
                && #[trigger] cpp_refs_of(scope, c, prefix, cur).subrange(o, o + cpp_refs_of(scope, c.children@[j], prefix, cur).len())
                == cpp_refs_of(scope, c.children@[j], prefix, cur),
{
    let cs = c.children@;
    let inner = cpp_refs_of(scope, cs[j], prefix, cur);
    lemma_refs_in_window(scope, cs, cs.len() as int, j, prefix, cur);
    let below = cpp_refs(scope, c, prefix, cur);
    let o = cpp_refs_in(scope, cs, j, prefix, cur).len() as int;
    assert(below == cpp_refs_in(scope, cs, cs.len() as int, prefix, cur));
    let here: Seq<RefDeclView> = if c.kind@ == "call_expression"@ {
        cpp_call_here(scope, c, cur)
    } else {
        Seq::empty()
    };
    let outer = cpp_refs_of(scope, c, prefix, cur);
    assert(outer == here + below);
    assert(outer.subrange(here.len() + o, here.len() + o + inner.len()) =~= below.subrange(o, o + inner.len()));
    assert(outer.subrange(here.len() + o, here.len() + o + inner.len()) == inner);
}

} // verus!
