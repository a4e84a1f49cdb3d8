//! The Go adapter: functions, types, methods and call-running package-level bindings
//! (`symbols`), calls (`references`), and `net/http` route registrations (`contracts`),
//! read off a Go parse tree.
//!
//! Go has no impl-block or class-body nesting: a method is its own top-level
//! `method_declaration` carrying a receiver, so its qualified path is built from the
//! receiver's type name. Tests follow the `go test` convention (`TestXxx` in a
//! `_test.go` file). The one route shape recognized is Go 1.22+ `net/http` routing,
//! `mux.HandleFunc("METHOD /path", handler)`; a pattern without a method has no verb to
//! report and is skipped rather than guessed at.
use vstd::prelude::*;

use crate::adapter::{ContractRef, ContractRefView, ContractRole, SymbolDecl, SymbolDeclView};
use crate::change::vec_views;
use crate::config::DetectorConfig;
use crate::diff::{first_index, lines_of, text_lines};
use crate::engine::string_views;
use crate::graph::{ContractKind, NodeKind};
use crate::syntax::{
    child_by_field, child_by_field_name, contains_kind, field_text, field_text_of, first_child_of_kind, first_of_kind,
    has_kind, is_kind, last_ident, last_identifier_text, named_child, named_child_at, ref_text, SourceFile, Syntax,
};
use crate::text::{
    chars_eq_str, chars_of, ends_with, has_prefix, has_suffix, join_path, join_sep, slice_chars, split_char, split_on,
    starts_with, str_eq, string_of, vviews,
};

verus! {

// ---------------------------------------------------------------------------------------
// Paths
// ---------------------------------------------------------------------------------------
/// `prefix::name`, or just `name` at the root.
pub open spec fn qualify(prefix: Seq<char>, name: Seq<char>) -> Seq<char> {
    if prefix.len() == 0 {
        name
    } else {
        prefix + seq![':', ':'] + name
    }
}

pub fn qualify_text(prefix: &str, name: &str) -> (r: String)
    ensures
        r@ == qualify(prefix@, name@),
{
    let mut p = chars_of(prefix);
    let n = chars_of(name);
    if p.len() == 0 {
        return string_of(n.as_slice());
    }
    p.push(':');
    p.push(':');
    let mut i: usize = 0;
    let ghost base = p@;
    while i < n.len()
        invariant
            i <= n@.len(),
            p@ == base + n@.take(i as int),
        decreases n@.len() - i,
    {
        p.push(n[i]);
        proof {
            assert(n@.take(i + 1) =~= n@.take(i as int).push(n@[i as int]));
        }
        i = i + 1;
    }
    proof {
        assert(n@.take(n@.len() as int) =~= n@);
        assert(p@ =~= prefix@ + seq![':', ':'] + name@);
    }
    string_of(p.as_slice())
}

/// Backslashes turned into forward slashes.
pub open spec fn to_slashes(s: Seq<char>) -> Seq<char> {
    s.map_values(|c: char| if c == '\\' { '/' } else { c })
}

/// `s` without the suffix `suf`, if it ends with it.
pub open spec fn without_suffix(s: Seq<char>, suf: Seq<char>) -> Seq<char> {
    if has_suffix(s, suf) {
        s.take(s.len() - suf.len())
    } else {
        s
    }
}

/// The non-empty pieces, in order.
pub open spec fn nonempty_pieces(ps: Seq<Seq<char>>) -> Seq<Seq<char>>
    decreases ps.len(),
{
    if ps.len() == 0 {
        Seq::empty()
    } else {
        let r = nonempty_pieces(ps.drop_last());
        if ps.last().len() > 0 {
            r.push(ps.last())
        } else {
            r
        }
    }
}

/// A file's module path: its `/`-separated directories and stem, joined with `::`.
pub open spec fn module_path_of(stem: Seq<char>) -> Seq<char> {
    join_sep(nonempty_pieces(split_char(stem, '/')))
}

/// The module a Go file's symbols live under: `payment/service.go` gives
/// `payment::service`. File-based rather than Go's per-directory packages; a
/// same-package call still resolves through the linker's short-name tier.
pub open spec fn go_module_prefix(rel: Seq<char>) -> Seq<char> {
    module_path_of(without_suffix(to_slashes(rel), ".go"@))
}

pub(crate) fn slashes(s: &[char]) -> (r: Vec<char>)
    ensures
        r@ == to_slashes(s@),
{
    let mut r: Vec<char> = Vec::new();
    let mut i: usize = 0;
    while i < s.len()
        invariant
            i <= s@.len(),
            r@ == to_slashes(s@.take(i as int)),
        decreases s@.len() - i,
    {
        let c = if s[i] == '\\' { '/' } else { s[i] };
        r.push(c);
        proof {
            assert(to_slashes(s@.take(i + 1)) =~= to_slashes(s@.take(i as int)).push(c));
        }
        i = i + 1;
    }
    proof {
        assert(s@.take(s@.len() as int) =~= s@);
    }
    r
}

pub(crate) fn keep_nonempty(ps: &Vec<Vec<char>>) -> (r: Vec<Vec<char>>)
    ensures
        vviews(r@) == nonempty_pieces(vviews(ps@)),
{
    let ghost pv = vviews(ps@);
    let mut r: Vec<Vec<char>> = Vec::new();
    let mut i: usize = 0;
    proof {
        assert(vviews(r@) =~= nonempty_pieces(pv.take(0)));
    }
    while i < ps.len()
        invariant
            i <= ps@.len(),
            pv == vviews(ps@),
            vviews(r@) == nonempty_pieces(pv.take(i as int)),
        decreases ps@.len() - i,
    {
        proof {
            assert(pv.take(i + 1).drop_last() =~= pv.take(i as int));
            assert(pv.take(i + 1).last() == ps@[i as int]@);
        }
        if ps[i].len() > 0 {
            let ghost o = vviews(r@);
            let piece = slice_chars(ps[i].as_slice(), 0, ps[i].len());
            proof {
                assert(piece@ =~= ps@[i as int]@);
            }
            r.push(piece);
            proof {
                assert(vviews(r@) =~= o.push(ps@[i as int]@));
            }
        }
        i = i + 1;
    }
    proof {
        assert(pv.take(ps@.len() as int) =~= pv);
    }
    r
}

/// The module path of a `/`-separated stem.
pub(crate) fn module_path_text(stem: &[char]) -> (r: String)
    ensures
        r@ == module_path_of(stem@),
{
    let pieces = split_on(stem, '/');
    let kept = keep_nonempty(&pieces);
    let joined = join_path(kept.as_slice());
    string_of(joined.as_slice())
}

pub fn module_prefix(rel_path: &str) -> (r: String)
    ensures
        r@ == go_module_prefix(rel_path@),
{
    let cs = chars_of(rel_path);
    let path = slashes(cs.as_slice());
    let suf = chars_of(".go");
    let stem = if ends_with(path.as_slice(), suf.as_slice()) {
        slice_chars(path.as_slice(), 0, path.len() - suf.len())
    } else {
        slice_chars(path.as_slice(), 0, path.len())
    };
    proof {
        assert(stem@ =~= without_suffix(to_slashes(rel_path@), ".go"@));
    }
    module_path_text(stem.as_slice())
}

/// A Go package is a directory: the module path without its last segment.
pub open spec fn go_package_module(prefix: Seq<char>) -> Seq<char> {
    let ps = nonempty_pieces(crate::text::split_sep(prefix));
    join_sep(if ps.len() > 0 { ps.drop_last() } else { ps })
}

pub fn package_module(prefix: &str) -> (r: String)
    ensures
        r@ == go_package_module(prefix@),
{
    let cs = chars_of(prefix);
    let pieces = crate::text::split_path(cs.as_slice());
    let mut kept = keep_nonempty(&pieces);
    if kept.len() > 0 {
        let ghost k = vviews(kept@);
        kept.pop();
        proof {
            assert(vviews(kept@) =~= k.drop_last());
        }
    }
    let joined = join_path(kept.as_slice());
    string_of(joined.as_slice())
}

// ---------------------------------------------------------------------------------------
// Files
// ---------------------------------------------------------------------------------------
/// Without its trailing `\r`s.
pub open spec fn trim_cr_end(l: Seq<char>) -> Seq<char>
    decreases l.len(),
{
    if l.len() > 0 && l.last() == '\r' {
        trim_cr_end(l.drop_last())
    } else {
        l
    }
}

/// Go's standard generated-file marker line: `// Code generated ... DO NOT EDIT.`.
pub open spec fn generated_marker(l: Seq<char>) -> bool {
    has_prefix(trim_cr_end(l), "// Code generated "@) && has_suffix(trim_cr_end(l), " DO NOT EDIT."@)
}

/// Whether some line of `source` is the generated-file marker.
pub open spec fn go_generated(source: Seq<char>) -> bool {
    exists|i: int| 0 <= i < text_lines(source).len() && generated_marker(#[trigger] text_lines(source)[i])
}

fn trim_cr(l: &[char]) -> (r: Vec<char>)
    ensures
        r@ == trim_cr_end(l@),
{
    let mut n = l.len();
    proof {
        assert(l@.take(n as int) =~= l@);
    }
    while n > 0 && l[n - 1] == '\r'
        invariant
            n <= l@.len(),
            trim_cr_end(l@) == trim_cr_end(l@.take(n as int)),
        decreases n,
    {
        proof {
            assert(l@.take(n as int).drop_last() =~= l@.take(n - 1));
        }
        n = n - 1;
    }
    slice_chars(l, 0, n)
}

pub fn is_generated_file(source: &str) -> (b: bool)
    ensures
        b == go_generated(source@),
{
    let lines = lines_of(source);
    let ghost lv = vec_views(lines@);
    let head = chars_of("// Code generated ");
    let tail = chars_of(" DO NOT EDIT.");
    let mut i: usize = 0;
    while i < lines.len()
        invariant
            i <= lines@.len(),
            lv == vec_views(lines@),
            lv == text_lines(source@),
            head@ == "// Code generated "@,
            tail@ == " DO NOT EDIT."@,
            forall|j: int| 0 <= j < i ==> !generated_marker(#[trigger] lv[j]),
        decreases lines@.len() - i,
    {
        let t = trim_cr(lines[i].as_slice());
        if starts_with(t.as_slice(), head.as_slice()) && ends_with(t.as_slice(), tail.as_slice()) {
            proof {
                assert(generated_marker(lv[i as int]));
            }
            return true;
        }
        i = i + 1;
    }
    false
}

/// A `TestXxx` function in a `_test.go` file.
pub open spec fn is_go_test(name: Seq<char>, is_test_file: bool) -> bool {
    is_test_file && has_prefix(name, "Test"@)
}

fn go_test_name(name: &String, is_test_file: bool) -> (b: bool)
    ensures
        b == is_go_test(name@, is_test_file),
{
    if !is_test_file {
        return false;
    }
    let n = chars_of(name.as_str());
    let p = chars_of("Test");
    starts_with(n.as_slice(), p.as_slice())
}

// ---------------------------------------------------------------------------------------
// Symbols
// ---------------------------------------------------------------------------------------
/// The symbol a node declares under `path`, spanning the node's lines.
pub open spec fn decl_at(kind: NodeKind, path: Seq<char>, at: Syntax, is_test: bool, generated: bool) -> SymbolDeclView {
    SymbolDeclView {
        kind,
        qualified_path: path,
        line: at.line as int,
        end_line: at.end_line as int,
        is_test,
        is_generated: generated,
        is_default_export: false,
    }
}

fn decl_from(kind: NodeKind, path: String, at: &Syntax, is_test: bool, generated: bool) -> (d: SymbolDecl)
    ensures
        d@ == decl_at(kind, path@, *at, is_test, generated),
{
    SymbolDecl { kind, qualified_path: path, line: at.line, end_line: at.end_line, is_test, is_generated: generated, is_default_export: false }
}

pub open spec fn decl_views(v: Seq<SymbolDecl>) -> Seq<SymbolDeclView> {
    v.map_values(|d: SymbolDecl| d@)
}

/// The type a `type_declaration` declares: its first `type_spec`'s first
/// `type_identifier` (only the first of several comma-separated specs).
pub open spec fn go_type_name(n: Syntax) -> Option<Seq<char>> {
    match first_of_kind(n, "type_spec"@) {
        Some(ts) => match first_of_kind(ts, "type_identifier"@) {
            Some(id) => Some(id.text@),
            None => None,
        },
        None => None,
    }
}

fn type_declaration_name(n: &Syntax) -> (r: Option<&String>)
    ensures
        ref_text(r) == go_type_name(*n),
{
    match first_child_of_kind(n, "type_spec") {
        Some(ts) => match first_child_of_kind(ts, "type_identifier") {
            Some(id) => Some(&id.text),
            None => None,
        },
        None => None,
    }
}

/// A `var`/`const` spec whose initializer calls something: running at package
/// initialization, the call belongs to the binding's name (the only name there is).
pub open spec fn binding_of(spec: Syntax) -> Option<Seq<char>> {
    if spec.kind@ == "var_spec"@ || spec.kind@ == "const_spec"@ {
        match child_by_field(spec, "value"@) {
            Some(v) => if contains_kind(v, "call_expression"@) {
                field_text(spec, "name"@)
            } else {
                None
            },
            None => None,
        }
    } else {
        None
    }
}

pub(crate) fn binding_name_text(spec: &Syntax) -> (r: Option<&String>)
    ensures
        ref_text(r) == binding_of(*spec),
{
    if !(is_kind(spec, "var_spec") || is_kind(spec, "const_spec")) {
        return None;
    }
    match child_by_field_name(spec, "value") {
        Some(v) => if has_kind(v, "call_expression") {
            field_text_of(spec, "name")
        } else {
            None
        },
        None => None,
    }
}

/// The symbols one top-level node declares.
pub open spec fn go_decls_of(c: Syntax, prefix: Seq<char>, is_test_file: bool, generated: bool) -> Seq<SymbolDeclView> {
    if c.kind@ == "function_declaration"@ {
        match field_text(c, "name"@) {
            Some(name) => seq![decl_at(NodeKind::Function, qualify(prefix, name), c, is_go_test(name, is_test_file), generated)],
            None => Seq::empty(),
        }
    } else if c.kind@ == "method_declaration"@ {
        match (child_by_field(c, "receiver"@), field_text(c, "name"@)) {
            (Some(r), Some(name)) => match last_ident(r) {
                Some(rt) => seq![decl_at(NodeKind::Function, qualify(qualify(prefix, rt), name), c, false, generated)],
                None => Seq::empty(),
            },
            _ => Seq::empty(),
        }
    } else if c.kind@ == "type_declaration"@ {
        match go_type_name(c) {
            Some(name) => seq![decl_at(NodeKind::Type, qualify(prefix, name), c, false, generated)],
            None => Seq::empty(),
        }
    } else if c.kind@ == "var_declaration"@ || c.kind@ == "const_declaration"@ {
        binding_decls(c.children@, c.children@.len() as int, prefix, generated)
    } else {
        Seq::empty()
    }
}

/// The bindings among the first `k` specs of a declaration, as `Field` symbols.
pub open spec fn binding_decls(specs: Seq<Syntax>, k: int, prefix: Seq<char>, generated: bool) -> Seq<SymbolDeclView>
    decreases k,
{
    if k <= 0 || k > specs.len() {
        Seq::empty()
    } else {
        let r = binding_decls(specs, k - 1, prefix, generated);
        match binding_of(specs[k - 1]) {
            Some(name) => r.push(decl_at(NodeKind::Field, qualify(prefix, name), specs[k - 1], false, generated)),
            None => r,
        }
    }
}

/// The symbols the first `k` top-level nodes declare, in order. Function bodies are not
/// entered: nested declarations are out of scope.
pub open spec fn go_decls_in(cs: Seq<Syntax>, k: int, prefix: Seq<char>, is_test_file: bool, generated: bool) -> Seq<SymbolDeclView>
    decreases k,
{
    if k <= 0 || k > cs.len() {
        Seq::empty()
    } else {
        go_decls_in(cs, k - 1, prefix, is_test_file, generated) + go_decls_of(cs[k - 1], prefix, is_test_file, generated)
    }
}

/// Every symbol a Go file declares.
pub open spec fn go_symbols(path: Seq<char>, source: Seq<char>, root: Syntax) -> Seq<SymbolDeclView> {
    go_decls_in(
        root.children@,
        root.children@.len() as int,
        go_module_prefix(path),
        has_suffix(path, "_test.go"@),
        go_generated(source),
    )
}

fn push_bindings(decl: &Syntax, prefix: &str, generated: bool, out: &mut Vec<SymbolDecl>)
    ensures
        decl_views(final(out)@) == decl_views(old(out)@) + binding_decls(decl.children@, decl.children@.len() as int, prefix@, generated),
{
    let ghost base = decl_views(out@);
    let ghost cs = decl.children@;
    let mut i: usize = 0;
    proof {
        assert(base + binding_decls(cs, 0, prefix@, generated) =~= base);
    }
    while i < decl.children.len()
        invariant
            i <= cs.len(),
            cs == decl.children@,
            decl_views(out@) == base + binding_decls(cs, i as int, prefix@, generated),
        decreases cs.len() - i,
    {
        let spec = &decl.children[i];
        match binding_name_text(spec) {
            Some(name) => {
                let ghost o = decl_views(out@);
                let d = decl_from(NodeKind::Field, qualify_text(prefix, name.as_str()), spec, false, generated);
                out.push(d);
                proof {
                    assert(decl_views(out@) =~= o.push(d@));
                }
            },
            None => {},
        }
        i = i + 1;
    }
}

fn push_decls_of(c: &Syntax, prefix: &str, is_test_file: bool, generated: bool, out: &mut Vec<SymbolDecl>)
    ensures
        decl_views(final(out)@) == decl_views(old(out)@) + go_decls_of(*c, prefix@, is_test_file, generated),
{
    let ghost base = decl_views(out@);
    if is_kind(c, "function_declaration") {
        match field_text_of(c, "name") {
            Some(name) => {
                let d = decl_from(NodeKind::Function, qualify_text(prefix, name.as_str()), c, go_test_name(name, is_test_file), generated);
                out.push(d);
                proof {
                    assert(decl_views(out@) =~= base + seq![d@]);
                }
            },
            None => {
                proof {
                    assert(decl_views(out@) =~= base + Seq::<SymbolDeclView>::empty());
                }
            },
        }
    } else if is_kind(c, "method_declaration") {
        let receiver = child_by_field_name(c, "receiver");
        let name = field_text_of(c, "name");
        let mut pushed = false;
        if let Some(r) = receiver {
            if let Some(n) = name {
                if let Some(rt) = last_identifier_text(r) {
                    let inner = qualify_text(prefix, rt.as_str());
                    let d = decl_from(NodeKind::Function, qualify_text(inner.as_str(), n.as_str()), c, false, generated);
                    out.push(d);
                    pushed = true;
                    proof {
                        assert(decl_views(out@) =~= base + seq![d@]);
                    }
                }
            }
        }
        if !pushed {
            proof {
                assert(decl_views(out@) =~= base + Seq::<SymbolDeclView>::empty());
            }
        }
    } else if is_kind(c, "type_declaration") {
        match type_declaration_name(c) {
            Some(name) => {
                let d = decl_from(NodeKind::Type, qualify_text(prefix, name.as_str()), c, false, generated);
                out.push(d);
                proof {
                    assert(decl_views(out@) =~= base + seq![d@]);
                }
            },
            None => {
                proof {
                    assert(decl_views(out@) =~= base + Seq::<SymbolDeclView>::empty());
                }
            },
        }
    } else if is_kind(c, "var_declaration") || is_kind(c, "const_declaration") {
        push_bindings(c, prefix, generated, out);
    } else {
        proof {
            assert(decl_views(out@) =~= base + Seq::<SymbolDeclView>::empty());
        }
    }
}

/// The symbols a Go file declares: one per function, method (under its receiver's type),
/// type, and package-level binding whose initializer calls something.
pub fn go_extract_symbols(file: &SourceFile) -> (r: Vec<SymbolDecl>)
    ensures
        decl_views(r@) == go_symbols(file.path@, file.source@, file.root),
{
    let prefix = module_prefix(file.path.as_str());
    let p = chars_of(file.path.as_str());
    let suf = chars_of("_test.go");
    let is_test_file = ends_with(p.as_slice(), suf.as_slice());
    let generated = is_generated_file(file.source.as_str());
    let root = &file.root;
    let ghost cs = root.children@;
    let mut out: Vec<SymbolDecl> = Vec::new();
    let mut i: usize = 0;
    proof {
        assert(decl_views(out@) =~= Seq::<SymbolDeclView>::empty());
    }
    while i < root.children.len()
        invariant
            i <= cs.len(),
            cs == root.children@,
            decl_views(out@) == go_decls_in(cs, i as int, prefix@, is_test_file, generated),
        decreases cs.len() - i,
    {
        push_decls_of(&root.children[i], prefix.as_str(), is_test_file, generated, &mut out);
        i = i + 1;
    }
    out
}

// ---------------------------------------------------------------------------------------
// Routes
// ---------------------------------------------------------------------------------------
pub open spec fn trim_start_char(s: Seq<char>, c: char) -> Seq<char>
    decreases s.len(),
{
    if s.len() > 0 && s[0] == c {
        trim_start_char(s.skip(1), c)
    } else {
        s
    }
}

pub open spec fn trim_end_char(s: Seq<char>, c: char) -> Seq<char>
    decreases s.len(),
{
    if s.len() > 0 && s.last() == c {
        trim_end_char(s.drop_last(), c)
    } else {
        s
    }
}

/// `str::trim_matches(c)`.
pub open spec fn trim_char(s: Seq<char>, c: char) -> Seq<char> {
    trim_end_char(trim_start_char(s, c), c)
}

pub(crate) fn trim_char_exec(s: &[char], c: char) -> (r: Vec<char>)
    ensures
        r@ == trim_char(s@, c),
{
    let n = s.len();
    let mut a: usize = 0;
    proof {
        assert(s@.skip(0) =~= s@);
    }
    while a < n && s[a] == c
        invariant
            a <= n == s@.len(),
            trim_start_char(s@, c) == trim_start_char(s@.skip(a as int), c),
        decreases n - a,
    {
        proof {
            assert(s@.skip(a as int).skip(1) =~= s@.skip(a + 1));
        }
        a = a + 1;
    }
    let ghost t = s@.skip(a as int);
    proof {
        assert(t.take(t.len() as int) =~= t);
    }
    let mut b: usize = n;
    while b > a && s[b - 1] == c
        invariant
            a <= b <= n == s@.len(),
            t == s@.skip(a as int),
            trim_end_char(t, c) == trim_end_char(t.take(b - a), c),
        decreases b - a,
    {
        proof {
            assert(t.take(b - a).drop_last() =~= t.take(b - a - 1));
            assert(t.take(b - a).last() == s@[b - 1]);
        }
        b = b - 1;
    }
    let r = slice_chars(s, a, b);
    proof {
        assert(r@ =~= t.take(b - a));
    }
    r
}

/// A Go interpreted string literal's text without its surrounding quotes (escapes are
/// left as written; route patterns need none).
pub open spec fn go_string_literal(n: Syntax) -> Option<Seq<char>> {
    if n.kind@ == "interpreted_string_literal"@ {
        Some(trim_char(n.text@, '"'))
    } else {
        None
    }
}

pub(crate) fn go_string_literal_text(n: &Syntax) -> (r: Option<Vec<char>>)
    ensures
        match go_string_literal(*n) {
            Some(t) => r matches Some(v) && v@ == t,
            None => r is None,
        },
{
    if !is_kind(n, "interpreted_string_literal") {
        return None;
    }
    let t = chars_of(n.text.as_str());
    Some(trim_char_exec(t.as_slice(), '"'))
}

/// `str::split_once(c)`: before and after the first `c`.
pub open spec fn split_once_char(s: Seq<char>, c: char) -> Option<(Seq<char>, Seq<char>)> {
    match first_index(s, c) {
        Some(i) => Some((s.take(i), s.skip(i + 1))),
        None => None,
    }
}

pub(crate) fn split_once_on(s: &[char], c: char) -> (r: Option<(Vec<char>, Vec<char>)>)
    ensures
        match split_once_char(s@, c) {
            Some((a, b)) => r matches Some((x, y)) && x@ == a && y@ == b,
            None => r is None,
        },
{
    proof {
        crate::diff::lemma_first_index(s@, c);
    }
    let mut k: usize = 0;
    while k < s.len() && s[k] != c
        invariant
            k <= s@.len(),
            forall|q: int| 0 <= q < k ==> s@[q] != c,
        decreases s@.len() - k,
    {
        k = k + 1;
    }
    if k >= s.len() {
        return None;
    }
    proof {
        assert(first_index(s@, c) == Some(k as int));
    }
    Some((slice_chars(s, 0, k), slice_chars(s, k + 1, s.len())))
}

/// The HTTP methods a route pattern may start with.
pub open spec fn is_http_verb(v: Seq<char>) -> bool {
    v == "GET"@ || v == "POST"@ || v == "PUT"@ || v == "DELETE"@ || v == "PATCH"@ || v == "HEAD"@ || v == "OPTIONS"@
        || v == "CONNECT"@ || v == "TRACE"@
}

fn http_verb(v: &[char]) -> (b: bool)
    ensures
        b == is_http_verb(v@),
{
    chars_eq_str(v, "GET") || chars_eq_str(v, "POST") || chars_eq_str(v, "PUT") || chars_eq_str(v, "DELETE")
        || chars_eq_str(v, "PATCH") || chars_eq_str(v, "HEAD") || chars_eq_str(v, "OPTIONS") || chars_eq_str(
        v,
        "CONNECT",
    ) || chars_eq_str(v, "TRACE")
}

/// A `x.HandleFunc("METHOD /path", handler)` call: its method, path and handler name.
pub open spec fn route_of(call: Syntax) -> Option<(Seq<char>, Seq<char>, Seq<char>)> {
    match child_by_field(call, "function"@) {
        Some(f) => if f.kind@ == "selector_expression"@ && field_text(f, "field"@) == Some("HandleFunc"@) {
            match child_by_field(call, "arguments"@) {
                Some(args) => match named_child(args, 0) {
                    Some(pa) => match go_string_literal(pa) {
                        Some(pattern) => match split_once_char(pattern, ' ') {
                            Some((verb, path)) => if is_http_verb(verb) {
                                match named_child(args, 1) {
                                    Some(ha) => match last_ident(ha) {
                                        Some(h) => Some((verb, path, h)),
                                        None => None,
                                    },
                                    None => None,
                                }
                            } else {
                                None
                            },
                            None => None,
                        },
                        None => None,
                    },
                    None => None,
                },
                None => None,
            }
        } else {
            None
        },
        None => None,
    }
}

fn route_call(call: &Syntax) -> (r: Option<(Vec<char>, Vec<char>, String)>)
    ensures
        match route_of(*call) {
            Some((v, p, h)) => r matches Some((x, y, z)) && x@ == v && y@ == p && z@ == h,
            None => r is None,
        },
{
    let f = match child_by_field_name(call, "function") {
        Some(f) => f,
        None => return None,
    };
    if !is_kind(f, "selector_expression") {
        return None;
    }
    match field_text_of(f, "field") {
        Some(t) => {
            if !str_eq(t.as_str(), "HandleFunc") {
                return None;
            }
        },
        None => return None,
    }
    let args = match child_by_field_name(call, "arguments") {
        Some(a) => a,
        None => return None,
    };
    let pa = match named_child_at(args, 0) {
        Some(p) => p,
        None => return None,
    };
    let pattern = match go_string_literal_text(pa) {
        Some(p) => p,
        None => return None,
    };
    let (verb, path) = match split_once_on(pattern.as_slice(), ' ') {
        Some(x) => x,
        None => return None,
    };
    if !http_verb(verb.as_slice()) {
        return None;
    }
    let ha = match named_child_at(args, 1) {
        Some(h) => h,
        None => return None,
    };
    match last_identifier_text(ha) {
        Some(h) => Some((verb, path, h.clone())),
        None => None,
    }
}

pub open spec fn contract_views(v: Seq<ContractRef>) -> Seq<ContractRefView> {
    v.map_values(|c: ContractRef| c@)
}

/// The route a node registers, if it is such a call and `net/http` detection is on.
pub open spec fn go_route_here(n: Syntax, on: bool) -> Seq<ContractRefView> {
    if on && n.kind@ == "call_expression"@ {
        match route_of(n) {
            Some((v, p, h)) => seq![
                ContractRefView {
                    contract_kind: ContractKind::ApiRoute,
                    contract_id: v + seq![' '] + p,
                    symbol_name: h,
                    role: ContractRole::Produces,
                },
            ],
            None => Seq::empty(),
        }
    } else {
        Seq::empty()
    }
}

/// Every route registered in the subtree at `n`, in document order.
pub open spec fn go_routes(n: Syntax, on: bool) -> Seq<ContractRefView>
    decreases n, 1int,
{
    go_route_here(n, on) + go_routes_in(n.children@, n.children@.len() as int, on)
}

pub open spec fn go_routes_in(cs: Seq<Syntax>, k: int, on: bool) -> Seq<ContractRefView>
    decreases cs, k,
{
    if k <= 0 || k > cs.len() {
        Seq::empty()
    } else {
        go_routes_in(cs, k - 1, on) + go_routes(cs[k - 1], on)
    }
}

fn collect_routes(n: &Syntax, on: bool, out: &mut Vec<ContractRef>)
    ensures
        contract_views(final(out)@) == contract_views(old(out)@) + go_routes(*n, on),
    decreases n,
{
    let ghost base = contract_views(out@);
    if on && is_kind(n, "call_expression") {
        match route_call(n) {
            Some((verb, path, handler)) => {
                let ghost vv = verb@;
                let ghost pv = path@;
                let mut id = verb;
                id.push(' ');
                let mut rest = path;
                id.append(&mut rest);
                proof {
                    assert(id@ =~= vv + seq![' '] + pv);
                }
                let c = ContractRef {
                    contract_kind: ContractKind::ApiRoute,
                    contract_id: string_of(id.as_slice()),
                    symbol_name: handler,
                    role: ContractRole::Produces,
                };
                out.push(c);
                proof {
                    assert(contract_views(out@) =~= base + go_route_here(*n, on));
                }
            },
            None => {
                proof {
                    assert(contract_views(out@) =~= base + go_route_here(*n, on));
                }
            },
        }
    } else {
        proof {
            assert(contract_views(out@) =~= base + go_route_here(*n, on));
        }
    }
    let ghost mid = contract_views(out@);
    let ghost cs = n.children@;
    let mut i: usize = 0;
    proof {
        assert(mid + go_routes_in(cs, 0, on) =~= mid);
    }
    while i < n.children.len()
        invariant
            i <= cs.len(),
            cs == n.children@,
            contract_views(out@) == mid + go_routes_in(cs, i as int, on),
        decreases cs.len() - i,
    {
        collect_routes(&n.children[i], on, out);
        proof {
            assert(mid + go_routes_in(cs, i + 1, on) =~= mid + go_routes_in(cs, i as int, on) + go_routes(cs[i as int], on));
        }
        i = i + 1;
    }
    proof {
        assert(base + go_routes(*n, on) =~= mid + go_routes_in(cs, cs.len() as int, on));
    }
}

/// Whether `net/http` route detection is on.
pub open spec fn net_http_on(config: DetectorConfig) -> bool {
    string_views(config.api_frameworks@).contains("net/http"@)
}

fn frameworks_have(config: &DetectorConfig, name: &str) -> (b: bool)
    ensures
        b == string_views(config.api_frameworks@).contains(name@),
{
    let ghost fv = string_views(config.api_frameworks@);
    let mut i: usize = 0;
    while i < config.api_frameworks.len()
        invariant
            i <= config.api_frameworks@.len(),
            fv == string_views(config.api_frameworks@),
            forall|j: int| 0 <= j < i ==> fv[j] != name@,
        decreases config.api_frameworks@.len() - i,
    {
        if str_eq(config.api_frameworks[i].as_str(), name) {
            proof {
                assert(fv[i as int] == name@);
            }
            return true;
        }
        i = i + 1;
    }
    false
}

/// The `net/http` routes a Go file registers (when `net/http` is among the configured
/// API frameworks), each as an `ApiRoute` contract `"METHOD /path"` its handler produces.
pub fn go_extract_contract_refs(config: &DetectorConfig, file: &SourceFile) -> (r: Vec<ContractRef>)
    ensures
        contract_views(r@) == go_routes(file.root, net_http_on(*config)),
{
    let on = frameworks_have(config, "net/http");
    let mut out: Vec<ContractRef> = Vec::new();
    proof {
        assert(contract_views(out@) =~= Seq::<ContractRefView>::empty());
    }
    collect_routes(&file.root, on, &mut out);
    proof {
        assert(Seq::<ContractRefView>::empty() + go_routes(file.root, on) =~= go_routes(file.root, on));
    }
    out
}

proof fn lemma_split_at_first_space(m: Seq<char>, path: Seq<char>)
    requires
        forall|j: int| 0 <= j < m.len() ==> m[j] != ' ',
    ensures
        split_once_char(m + seq![' '] + path, ' ') == Some((m, path)),
{
    let s = m + seq![' '] + path;
    crate::diff::lemma_first_index(s, ' ');
    assert(s[m.len() as int] == ' ');
    assert forall|j: int| 0 <= j < m.len() implies s[j] != ' ' by {
        assert(s[j] == m[j]);
    }
    assert(first_index(s, ' ') == Some(m.len() as int));
    assert(s.take(m.len() as int) =~= m);
    assert(s.skip(m.len() + 1int) =~= path);
}

/// Every standard request method registers a route: a `HandleFunc` call whose pattern is
/// `GET`, `POST`, `PUT`, `DELETE`, `PATCH`, `HEAD`, `OPTIONS`, `CONNECT` or `TRACE`, a
/// space and any path produces the API route named by that whole pattern, for its
/// handler.
pub proof fn law_every_standard_method_registers_a_route(call: Syntax, m: Seq<char>, path: Seq<char>, h: Seq<char>)
    requires
        m == "GET"@ || m == "POST"@ || m == "PUT"@ || m == "DELETE"@ || m == "PATCH"@ || m == "HEAD"@ || m == "OPTIONS"@
            || m == "CONNECT"@ || m == "TRACE"@,
        call.kind@ == "call_expression"@,
        child_by_field(call, "function"@) matches Some(f) && f.kind@ == "selector_expression"@ && field_text(f, "field"@)
            == Some("HandleFunc"@),
        child_by_field(call, "arguments"@) matches Some(args) && (named_child(args, 0) matches Some(pa) && (
        go_string_literal(pa) == Some(m + seq![' '] + path) && (named_child(args, 1) matches Some(ha) && last_ident(ha)
            == Some(h)))),
    ensures
        go_route_here(call, true) == seq![
            ContractRefView {
                contract_kind: ContractKind::ApiRoute,
                contract_id: m + seq![' '] + path,
                symbol_name: h,
                role: ContractRole::Produces,
            },
        ],
{
    reveal_strlit("GET");
    reveal_strlit("POST");
    reveal_strlit("PUT");
    reveal_strlit("DELETE");
    reveal_strlit("PATCH");
    reveal_strlit("HEAD");
    reveal_strlit("OPTIONS");
    reveal_strlit("CONNECT");
    reveal_strlit("TRACE");
    assert forall|j: int| 0 <= j < m.len() implies m[j] != ' ' by {}
    lemma_split_at_first_space(m, path);
    assert(is_http_verb(m));
    assert(route_of(call) == Some((m, path, h)));
}

} // verus!
