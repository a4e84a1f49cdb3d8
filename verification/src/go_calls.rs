//! The calls a Go file makes, and where each callee points. Go states types where they
//! matter (receivers, parameters, `var`s, struct fields), so a method call's receiver
//! almost always has a declared type to look up, with no inference involved.
use vstd::hash_map::StringHashMap;
use vstd::prelude::*;

use crate::adapter::{ContractRef, RefDecl, RefDeclView, RefTarget, RefTargetView, SymbolDecl};
use crate::config::{is_default_config, DetectorConfig};
use crate::engine::string_views;
use crate::go::{
    contract_views, decl_views, go_extract_contract_refs, go_extract_symbols, go_routes, go_symbols, net_http_on,
    binding_of, go_module_prefix, go_package_module, go_string_literal, module_prefix, package_module, qualify,
    qualify_text, split_once_char, split_once_on,
};
use crate::graph::EdgeKind;
use crate::parse::{parse_go, parsed_file, tree_sitter_go_listing, ParseFailure};
use crate::scope::{bare_target, qualified_target, FileScope, FileScopeView};
use crate::syntax::{
    child_by_field, child_by_field_name, field_index_from, field_text, field_text_of, is_kind, last_ident,
    last_identifier_text, lemma_field_index, opt_text, ref_text, SourceFile, Syntax,
};
use crate::text::{chars_of, rsplit_once_char, rsplit_once_on, slice_chars, string_of};

verus! {

// ---------------------------------------------------------------------------------------
// What the file declares and imports
// ---------------------------------------------------------------------------------------
/// The directory an import path names: its last `/`-separated segment, if not empty.
pub open spec fn import_dir(path: Seq<char>) -> Option<Seq<char>> {
    let d = match rsplit_once_char(path, '/') {
        Some((_, b)) => b,
        None => path,
    };
    if d.len() > 0 {
        Some(d)
    } else {
        None
    }
}

/// One `import_spec`: its package name (alias, or its directory) bound to its directory.
pub open spec fn import_one(v: FileScopeView, spec: Syntax) -> FileScopeView {
    match child_by_field(spec, "path"@) {
        Some(p) => match go_string_literal(p) {
            Some(path) => match import_dir(path) {
                Some(dir) => {
                    let alias = match field_text(spec, "name"@) {
                        Some(a) => a,
                        None => dir,
                    };
                    FileScopeView { imports: v.imports.insert(alias, dir), ..v }
                },
                None => v,
            },
            None => v,
        },
        None => v,
    }
}

/// Every `import_spec` in the subtree below `n`.
pub open spec fn import_specs(v: FileScopeView, n: Syntax) -> FileScopeView
    decreases n, 1int,
{
    import_specs_in(v, n.children@, n.children@.len() as int)
}

pub open spec fn import_specs_in(v: FileScopeView, cs: Seq<Syntax>, k: int) -> FileScopeView
    decreases cs, k,
{
    if k <= 0 || k > cs.len() {
        v
    } else {
        let v1 = import_specs_in(v, cs, k - 1);
        if cs[k - 1].kind@ == "import_spec"@ {
            import_one(v1, cs[k - 1])
        } else {
            import_specs(v1, cs[k - 1])
        }
    }
}

/// The type names the first `k` specs of a `type_declaration` declare.
pub open spec fn type_locals(v: FileScopeView, specs: Seq<Syntax>, k: int) -> FileScopeView
    decreases k,
{
    if k <= 0 || k > specs.len() {
        v
    } else {
        let v1 = type_locals(v, specs, k - 1);
        if specs[k - 1].kind@ == "type_spec"@ {
            match field_text(specs[k - 1], "name"@) {
                Some(n) => FileScopeView { locals: v1.locals.insert(n), ..v1 },
                None => v1,
            }
        } else {
            v1
        }
    }
}

/// What one top-level node adds to the file's scope.
pub open spec fn scope_step(v: FileScopeView, c: Syntax) -> FileScopeView {
    if c.kind@ == "import_declaration"@ {
        import_specs(v, c)
    } else if c.kind@ == "function_declaration"@ {
        match field_text(c, "name"@) {
            Some(n) => FileScopeView { locals: v.locals.insert(n), ..v },
            None => v,
        }
    } else if c.kind@ == "type_declaration"@ {
        type_locals(v, c.children@, c.children@.len() as int)
    } else {
        v
    }
}

pub open spec fn scope_in(v: FileScopeView, cs: Seq<Syntax>, k: int) -> FileScopeView
    decreases k,
{
    if k <= 0 || k > cs.len() {
        v
    } else {
        scope_step(scope_in(v, cs, k - 1), cs[k - 1])
    }
}

/// A Go file's scope: its imports and its top-level functions and types; an unimported
/// name is taken to live in the file's own package (directory).
pub open spec fn go_scope(root: Syntax, prefix: Seq<char>) -> FileScopeView {
    scope_in(
        FileScopeView {
            module: prefix,
            imports: Map::empty(),
            default_imports: Map::empty(),
            locals: Set::empty(),
            wildcards: Seq::empty(),
            unimported: RefTargetView::Module(go_package_module(prefix)),
        },
        root.children@,
        root.children@.len() as int,
    )
}

fn add_import_spec(spec: &Syntax, scope: &mut FileScope)
    ensures
        final(scope)@ == import_one(old(scope)@, *spec),
{
    let p = match child_by_field_name(spec, "path") {
        Some(p) => p,
        None => return,
    };
    let path = match crate::go::go_string_literal_text(p) {
        Some(t) => t,
        None => return,
    };
    let dir = match rsplit_once_on(path.as_slice(), '/') {
        Some((_, b)) => b,
        None => path,
    };
    if dir.len() == 0 {
        return;
    }
    let dir_text = string_of(dir.as_slice());
    match field_text_of(spec, "name") {
        Some(a) => scope.add_import(a.as_str(), dir_text.as_str()),
        None => scope.add_import(dir_text.as_str(), dir_text.as_str()),
    }
}

fn add_import_specs(n: &Syntax, scope: &mut FileScope)
    ensures
        final(scope)@ == import_specs(old(scope)@, *n),
    decreases n,
{
    let ghost v0 = scope@;
    let ghost cs = n.children@;
    let mut i: usize = 0;
    while i < n.children.len()
        invariant
            i <= cs.len(),
            cs == n.children@,
            scope@ == import_specs_in(v0, cs, i as int),
        decreases cs.len() - i,
    {
        let c = &n.children[i];
        if is_kind(c, "import_spec") {
            add_import_spec(c, scope);
        } else {
            add_import_specs(c, scope);
        }
        i = i + 1;
    }
}

fn build_scope(root: &Syntax, prefix: &str) -> (s: FileScope)
    ensures
        s@ == go_scope(*root, prefix@),
{
    let package = package_module(prefix);
    let mut scope = FileScope::new(prefix, RefTarget::Module(package));
    let ghost v0 = scope@;
    let ghost cs = root.children@;
    let mut i: usize = 0;
    while i < root.children.len()
        invariant
            i <= cs.len(),
            cs == root.children@,
            scope@ == scope_in(v0, cs, i as int),
        decreases cs.len() - i,
    {
        let c = &root.children[i];
        if is_kind(c, "import_declaration") {
            add_import_specs(c, &mut scope);
        } else if is_kind(c, "function_declaration") {
            match field_text_of(c, "name") {
                Some(n) => scope.declare_local(n.as_str()),
                None => {},
            }
        } else if is_kind(c, "type_declaration") {
            let ghost w0 = scope@;
            let ghost specs = c.children@;
            let mut j: usize = 0;
            while j < c.children.len()
                invariant
                    j <= specs.len(),
                    specs == c.children@,
                    scope@ == type_locals(w0, specs, j as int),
                decreases specs.len() - j,
            {
                let spec = &c.children[j];
                if is_kind(spec, "type_spec") {
                    match field_text_of(spec, "name") {
                        Some(n) => scope.declare_local(n.as_str()),
                        None => {},
                    }
                }
                j = j + 1;
            }
        }
        i = i + 1;
    }
    scope
}

// ---------------------------------------------------------------------------------------
// Declared types
// ---------------------------------------------------------------------------------------
/// `str::trim_start_matches(['*', '&'])`: a type without its pointer or reference marks.
pub open spec fn strip_pointer(s: Seq<char>) -> Seq<char>
    decreases s.len(),
{
    if s.len() > 0 && (s[0] == '*' || s[0] == '&') {
        strip_pointer(s.skip(1))
    } else {
        s
    }
}

fn strip_pointer_text(s: &String) -> (r: String)
    ensures
        r@ == strip_pointer(s@),
{
    let cs = chars_of(s.as_str());
    let mut a: usize = 0;
    proof {
        assert(cs@.skip(0) =~= cs@);
    }
    while a < cs.len() && (cs[a] == '*' || cs[a] == '&')
        invariant
            a <= cs@.len(),
            strip_pointer(s@) == strip_pointer(cs@.skip(a as int)),
            cs@ == s@,
        decreases cs@.len() - a,
    {
        proof {
            assert(cs@.skip(a as int).skip(1) =~= cs@.skip(a + 1));
        }
        a = a + 1;
    }
    let r = slice_chars(cs.as_slice(), a, cs.len());
    proof {
        assert(r@ =~= cs@.skip(a as int));
    }
    string_of(r.as_slice())
}

/// A parameter's or `var`'s declared type, recorded under its (first) name.
pub open spec fn type_entry(m: Map<Seq<char>, Seq<char>>, c: Syntax) -> Map<Seq<char>, Seq<char>> {
    if c.kind@ == "parameter_declaration"@ || c.kind@ == "var_spec"@ {
        match (field_text(c, "name"@), child_by_field(c, "type"@)) {
            (Some(n), Some(t)) => m.insert(n, strip_pointer(t.text@)),
            _ => m,
        }
    } else {
        m
    }
}

/// The declared type of every named value below `n`, in document order; a name seen
/// again takes its later type.
pub open spec fn types_of(m: Map<Seq<char>, Seq<char>>, n: Syntax) -> Map<Seq<char>, Seq<char>>
    decreases n, 1int,
{
    types_in(m, n.children@, n.children@.len() as int)
}

pub open spec fn types_in(m: Map<Seq<char>, Seq<char>>, cs: Seq<Syntax>, k: int) -> Map<Seq<char>, Seq<char>>
    decreases cs, k,
{
    if k <= 0 || k > cs.len() {
        m
    } else {
        let m1 = types_in(m, cs, k - 1);
        types_of(type_entry(m1, cs[k - 1]), cs[k - 1])
    }
}

pub open spec fn string_map(m: Map<Seq<char>, String>) -> Map<Seq<char>, Seq<char>> {
    m.map_values(|s: String| s@)
}

fn add_type_entry(c: &Syntax, m: &mut StringHashMap<String>)
    ensures
        string_map(final(m)@) == type_entry(string_map(old(m)@), *c),
{
    if !(is_kind(c, "parameter_declaration") || is_kind(c, "var_spec")) {
        return;
    }
    let name = match field_text_of(c, "name") {
        Some(n) => n,
        None => return,
    };
    let t = match child_by_field_name(c, "type") {
        Some(t) => t,
        None => return,
    };
    let ghost before = string_map(m@);
    let stripped = strip_pointer_text(&t.text);
    let ghost sv = stripped@;
    m.insert(name.clone(), stripped);
    proof {
        assert(string_map(m@) =~= before.insert(name@, sv));
    }
}

fn collect_types(n: &Syntax, m: &mut StringHashMap<String>)
    ensures
        string_map(final(m)@) == types_of(string_map(old(m)@), *n),
    decreases n,
{
    let ghost m0 = string_map(m@);
    let ghost cs = n.children@;
    let mut i: usize = 0;
    while i < n.children.len()
        invariant
            i <= cs.len(),
            cs == n.children@,
            string_map(m@) == types_in(m0, cs, i as int),
        decreases cs.len() - i,
    {
        let c = &n.children[i];
        add_type_entry(c, m);
        collect_types(c, m);
        i = i + 1;
    }
}

/// A struct's fields and their declared types, in declaration order.
pub open spec fn field_pairs(fds: Seq<Syntax>, k: int) -> Seq<(Seq<char>, Seq<char>)>
    decreases k,
{
    if k <= 0 || k > fds.len() {
        Seq::empty()
    } else {
        let r = field_pairs(fds, k - 1);
        let fd = fds[k - 1];
        if fd.kind@ == "field_declaration"@ {
            match (field_text(fd, "name"@), child_by_field(fd, "type"@)) {
                (Some(f), Some(t)) => r.push((f, strip_pointer(t.text@))),
                _ => r,
            }
        } else {
            r
        }
    }
}

/// A `type_spec` declaring a struct records the struct's fields under its name.
pub open spec fn struct_entry(m: Map<Seq<char>, Seq<(Seq<char>, Seq<char>)>>, spec: Syntax) -> Map<
    Seq<char>,
    Seq<(Seq<char>, Seq<char>)>,
> {
    if spec.kind@ == "type_spec"@ {
        match (field_text(spec, "name"@), child_by_field(spec, "type"@)) {
            (Some(tn), Some(st)) => if st.kind@ == "struct_type"@ {
                match crate::syntax::first_of_kind(st, "field_declaration_list"@) {
                    Some(fl) => m.insert(tn, field_pairs(fl.children@, fl.children@.len() as int)),
                    None => m,
                }
            } else {
                m
            },
            _ => m,
        }
    } else {
        m
    }
}

pub open spec fn struct_specs(m: Map<Seq<char>, Seq<(Seq<char>, Seq<char>)>>, specs: Seq<Syntax>, k: int) -> Map<
    Seq<char>,
    Seq<(Seq<char>, Seq<char>)>,
>
    decreases k,
{
    if k <= 0 || k > specs.len() {
        m
    } else {
        struct_entry(struct_specs(m, specs, k - 1), specs[k - 1])
    }
}

pub open spec fn fields_in(m: Map<Seq<char>, Seq<(Seq<char>, Seq<char>)>>, cs: Seq<Syntax>, k: int) -> Map<
    Seq<char>,
    Seq<(Seq<char>, Seq<char>)>,
>
    decreases k,
{
    if k <= 0 || k > cs.len() {
        m
    } else {
        let m1 = fields_in(m, cs, k - 1);
        if cs[k - 1].kind@ == "type_declaration"@ {
            struct_specs(m1, cs[k - 1].children@, cs[k - 1].children@.len() as int)
        } else {
            m1
        }
    }
}

/// The fields of every struct this file declares at top level, by struct name.
pub open spec fn go_struct_fields(root: Syntax) -> Map<Seq<char>, Seq<(Seq<char>, Seq<char>)>> {
    fields_in(Map::empty(), root.children@, root.children@.len() as int)
}

pub open spec fn pair_views(v: Seq<(String, String)>) -> Seq<(Seq<char>, Seq<char>)> {
    v.map_values(|p: (String, String)| (p.0@, p.1@))
}

pub open spec fn fields_map(m: Map<Seq<char>, Vec<(String, String)>>) -> Map<Seq<char>, Seq<(Seq<char>, Seq<char>)>> {
    m.map_values(|v: Vec<(String, String)>| pair_views(v@))
}

fn struct_field_list(fl: &Syntax) -> (r: Vec<(String, String)>)
    ensures
        pair_views(r@) == field_pairs(fl.children@, fl.children@.len() as int),
{
    let ghost fds = fl.children@;
    let mut r: Vec<(String, String)> = Vec::new();
    let mut i: usize = 0;
    proof {
        assert(pair_views(r@) =~= Seq::<(Seq<char>, Seq<char>)>::empty());
    }
    while i < fl.children.len()
        invariant
            i <= fds.len(),
            fds == fl.children@,
            pair_views(r@) == field_pairs(fds, i as int),
        decreases fds.len() - i,
    {
        let fd = &fl.children[i];
        if is_kind(fd, "field_declaration") {
            match (field_text_of(fd, "name"), child_by_field_name(fd, "type")) {
                (Some(f), Some(t)) => {
                    let ghost o = pair_views(r@);
                    let ty = strip_pointer_text(&t.text);
                    let ghost tv = ty@;
                    r.push((f.clone(), ty));
                    proof {
                        assert(pair_views(r@) =~= o.push((f@, tv)));
                    }
                },
                _ => {},
            }
        }
        i = i + 1;
    }
    r
}

fn collect_struct_fields(root: &Syntax) -> (m: StringHashMap<Vec<(String, String)>>)
    ensures
        fields_map(m@) == go_struct_fields(*root),
{
    let mut m: StringHashMap<Vec<(String, String)>> = StringHashMap::new();
    let ghost cs = root.children@;
    let mut i: usize = 0;
    proof {
        assert(fields_map(m@) =~= Map::<Seq<char>, Seq<(Seq<char>, Seq<char>)>>::empty());
    }
    while i < root.children.len()
        invariant
            i <= cs.len(),
            cs == root.children@,
            fields_map(m@) == fields_in(Map::empty(), cs, i as int),
        decreases cs.len() - i,
    {
        let c = &root.children[i];
        if is_kind(c, "type_declaration") {
            let ghost w0 = fields_map(m@);
            let ghost specs = c.children@;
            let mut j: usize = 0;
            while j < c.children.len()
                invariant
                    j <= specs.len(),
                    specs == c.children@,
                    fields_map(m@) == struct_specs(w0, specs, j as int),
                decreases specs.len() - j,
            {
                let spec = &c.children[j];
                if is_kind(spec, "type_spec") {
                    match (field_text_of(spec, "name"), child_by_field_name(spec, "type")) {
                        (Some(tn), Some(st)) => {
                            if is_kind(st, "struct_type") {
                                match crate::syntax::first_child_of_kind(st, "field_declaration_list") {
                                    Some(fl) => {
                                        let ghost before = fields_map(m@);
                                        let pairs = struct_field_list(fl);
                                        let ghost pv = pair_views(pairs@);
                                        m.insert(tn.clone(), pairs);
                                        proof {
                                            assert(fields_map(m@) =~= before.insert(tn@, pv));
                                        }
                                    },
                                    None => {},
                                }
                            }
                        },
                        _ => {},
                    }
                }
                j = j + 1;
            }
        }
        i = i + 1;
    }
    m
}

// ---------------------------------------------------------------------------------------
// Call targets
// ---------------------------------------------------------------------------------------
/// What a file knows for resolving callees: its scope, the declared type of every named
/// value, and the fields of its structs.
pub struct GoContext {
    pub scope: FileScope,
    pub types: StringHashMap<String>,
    pub fields: StringHashMap<Vec<(String, String)>>,
}

pub struct GoContextView {
    pub scope: FileScopeView,
    pub types: Map<Seq<char>, Seq<char>>,
    pub fields: Map<Seq<char>, Seq<(Seq<char>, Seq<char>)>>,
}

impl View for GoContext {
    type V = GoContextView;

    open spec fn view(&self) -> GoContextView {
        GoContextView { scope: self.scope@, types: string_map(self.types@), fields: fields_map(self.fields@) }
    }
}

/// The type a field of the given name has, by the last declaration of it.
pub open spec fn last_pair(pairs: Seq<(Seq<char>, Seq<char>)>, f: Seq<char>) -> Option<Seq<char>>
    decreases pairs.len(),
{
    if pairs.len() == 0 {
        None
    } else if pairs.last().0 == f {
        Some(pairs.last().1)
    } else {
        last_pair(pairs.drop_last(), f)
    }
}

/// The text after the last `.` (all of it if there is none).
pub open spec fn after_last_dot(s: Seq<char>) -> Seq<char> {
    match rsplit_once_char(s, '.') {
        Some((_, b)) => b,
        None => s,
    }
}

/// A declared type's module: a package-qualified type (`svc.Service`) resolves through
/// its package's import, a bare one as a local declaration.
pub open spec fn resolve_declared(scope: FileScopeView, d: Seq<char>) -> RefTargetView {
    match split_once_char(d, '.') {
        Some((pkg, _)) => qualified_target(scope, pkg),
        None => qualified_target(scope, d),
    }
}

/// A selector's plain operand: a value with a declared type resolves through that type,
/// anything else as an import or local name.
pub open spec fn operand_target(ctx: GoContextView, name: Seq<char>) -> RefTargetView {
    if ctx.types.contains_key(name) {
        resolve_declared(ctx.scope, ctx.types[name])
    } else {
        qualified_target(ctx.scope, name)
    }
}

/// The declared type of an identifier, or of a field-selector chain (each hop looking up
/// the previous hop's struct fields); `None` for anything else.
pub open spec fn expr_type(ctx: GoContextView, e: Syntax) -> Option<Seq<char>>
    decreases e,
{
    if e.kind@ == "identifier"@ {
        if ctx.types.contains_key(e.text@) {
            Some(ctx.types[e.text@])
        } else {
            None
        }
    } else if e.kind@ == "selector_expression"@ {
        match field_index_from(e.children@, "operand"@, 0) {
            Some(j) => if 0 <= j < e.children@.len() {
                match (field_text(e, "field"@), expr_type(ctx, e.children@[j])) {
                    (Some(f), Some(rt)) => {
                        let sn = after_last_dot(rt);
                        if ctx.fields.contains_key(sn) {
                            last_pair(ctx.fields[sn], f)
                        } else {
                            None
                        }
                    },
                    _ => None,
                }
            } else {
                None
            },
            None => None,
        }
    } else {
        None
    }
}

/// Where a selector's operand points.
pub open spec fn selector_operand_target(ctx: GoContextView, op: Syntax) -> RefTargetView {
    if op.kind@ == "identifier"@ {
        operand_target(ctx, op.text@)
    } else if op.kind@ == "selector_expression"@ {
        match expr_type(ctx, op) {
            Some(d) => resolve_declared(ctx.scope, d),
            None => RefTargetView::Opaque,
        }
    } else {
        RefTargetView::Opaque
    }
}

/// Where a call's callee points: a bare name through the file's scope, a selector
/// through its operand.
pub open spec fn call_target(ctx: GoContextView, callee: Syntax) -> RefTargetView {
    if callee.kind@ == "identifier"@ {
        bare_target(ctx.scope, callee.text@)
    } else if callee.kind@ == "selector_expression"@ {
        match child_by_field(callee, "operand"@) {
            Some(op) => selector_operand_target(ctx, op),
            None => RefTargetView::Opaque,
        }
    } else {
        RefTargetView::Opaque
    }
}

fn field_type(fields: &StringHashMap<Vec<(String, String)>>, sn: &Vec<char>, f: &String) -> (r: Option<String>)
    ensures
        opt_text(r) == (if fields_map(fields@).contains_key(sn@) {
            last_pair(fields_map(fields@)[sn@], f@)
        } else {
            None
        }),
{
    let key = string_of(sn.as_slice());
    match fields.get(key.as_str()) {
        Some(pairs) => {
            let ghost pv = pair_views(pairs@);
            proof {
                assert(fields_map(fields@).contains_key(sn@));
                assert(fields_map(fields@)[sn@] == pv);
            }
            let mut i = pairs.len();
            proof {
                assert(pv.take(i as int) =~= pv);
            }
            while i > 0
                invariant
                    i <= pairs@.len(),
                    pv == pair_views(pairs@),
                    last_pair(pv, f@) == last_pair(pv.take(i as int), f@),
                    fields_map(fields@).contains_key(sn@),
                    fields_map(fields@)[sn@] == pv,
                decreases i,
            {
                proof {
                    assert(pv.take(i as int).drop_last() =~= pv.take(i - 1));
                    assert(pv.take(i as int).last() == (pairs@[i - 1].0@, pairs@[i - 1].1@));
                }
                if crate::text::str_eq(pairs[i - 1].0.as_str(), f.as_str()) {
                    proof {
                        assert(last_pair(pv.take(i as int), f@) == Some(pairs@[i - 1].1@));
                    }
                    return Some(pairs[i - 1].1.clone());
                }
                i = i - 1;
            }
            None
        },
        None => None,
    }
}

fn expr_declared_type(ctx: &GoContext, e: &Syntax) -> (r: Option<String>)
    ensures
        opt_text(r) == expr_type(ctx@, *e),
    decreases e,
{
    if is_kind(e, "identifier") {
        return match ctx.types.get(e.text.as_str()) {
            Some(t) => Some(t.clone()),
            None => None,
        };
    }
    if !is_kind(e, "selector_expression") {
        return None;
    }
    proof {
        lemma_field_index(e.children@, "operand"@, 0);
    }
    let receiver = match child_by_field_name(e, "operand") {
        Some(r) => r,
        None => return None,
    };
    let field = field_text_of(e, "field");
    let rt = expr_declared_type(ctx, receiver);
    match (field, rt) {
        (Some(f), Some(rt)) => {
            let rc = chars_of(rt.as_str());
            let sn = match rsplit_once_on(rc.as_slice(), '.') {
                Some((_, b)) => b,
                None => rc,
            };
            field_type(&ctx.fields, &sn, f)
        },
        _ => None,
    }
}

fn resolve_declared_type(scope: &FileScope, d: &String) -> (t: RefTarget)
    ensures
        t@ == resolve_declared(scope@, d@),
{
    let dc = chars_of(d.as_str());
    match split_once_on(dc.as_slice(), '.') {
        Some((pkg, _)) => {
            let p = string_of(pkg.as_slice());
            scope.qualified(p.as_str())
        },
        None => scope.qualified(d.as_str()),
    }
}

fn selector_target(ctx: &GoContext, op: &Syntax) -> (t: RefTarget)
    ensures
        t@ == selector_operand_target(ctx@, *op),
{
    if is_kind(op, "identifier") {
        match ctx.types.get(op.text.as_str()) {
            Some(d) => resolve_declared_type(&ctx.scope, d),
            None => ctx.scope.qualified(op.text.as_str()),
        }
    } else if is_kind(op, "selector_expression") {
        match expr_declared_type(ctx, op) {
            Some(d) => resolve_declared_type(&ctx.scope, &d),
            None => RefTarget::Opaque,
        }
    } else {
        RefTarget::Opaque
    }
}

fn callee_target(ctx: &GoContext, callee: &Syntax) -> (t: RefTarget)
    ensures
        t@ == call_target(ctx@, *callee),
{
    if is_kind(callee, "identifier") {
        ctx.scope.bare(callee.text.as_str())
    } else if is_kind(callee, "selector_expression") {
        match child_by_field_name(callee, "operand") {
            Some(op) => selector_target(ctx, op),
            None => RefTarget::Opaque,
        }
    } else {
        RefTarget::Opaque
    }
}

// ---------------------------------------------------------------------------------------
// Calls
// ---------------------------------------------------------------------------------------
pub open spec fn ref_views(v: Seq<RefDecl>) -> Seq<RefDeclView> {
    v.map_values(|r: RefDecl| r@)
}

/// The call from `from` that a call expression's callee `func` records.
pub open spec fn call_ref(ctx: GoContextView, from: Seq<char>, func: Syntax) -> Seq<RefDeclView> {
    match last_ident(func) {
        Some(name) => seq![
            RefDeclView { from_qualified_path: from, to_name: name, kind: EdgeKind::Calls, to_target: call_target(ctx, func) },
        ],
        None => Seq::empty(),
    }
}

/// The calls below the child of `c` that fills `field`.
pub open spec fn sub_refs(ctx: GoContextView, c: Syntax, field: Seq<char>, prefix: Seq<char>, cur: Option<Seq<char>>) -> Seq<
    RefDeclView,
>
    decreases c, 2int,
{
    match field_index_from(c.children@, field, 0) {
        Some(j) => if 0 <= j < c.children@.len() {
            go_refs(ctx, c.children@[j], prefix, cur)
        } else {
            Seq::empty()
        },
        None => Seq::empty(),
    }
}

/// The calls one child makes: a function or method body's calls belong to it; a call
/// records itself (inside a function) and its callee's and arguments' calls; a
/// package-level binding's initializer calls belong to the binding; anything else is
/// searched through.
pub open spec fn refs_of(ctx: GoContextView, c: Syntax, prefix: Seq<char>, cur: Option<Seq<char>>) -> Seq<RefDeclView>
    decreases c, 3int,
{
    if c.kind@ == "function_declaration"@ {
        match field_text(c, "name"@) {
            Some(name) => sub_refs(ctx, c, "body"@, prefix, Some(qualify(prefix, name))),
            None => Seq::empty(),
        }
    } else if c.kind@ == "method_declaration"@ {
        match (child_by_field(c, "receiver"@), field_text(c, "name"@)) {
            (Some(r), Some(name)) => match last_ident(r) {
                Some(rt) => sub_refs(ctx, c, "body"@, prefix, Some(qualify(qualify(prefix, rt), name))),
                None => Seq::empty(),
            },
            _ => Seq::empty(),
        }
    } else if c.kind@ == "call_expression"@ {
        let here = match (cur, child_by_field(c, "function"@)) {
            (Some(from), Some(f)) => call_ref(ctx, from, f),
            _ => Seq::empty(),
        };
        here + sub_refs(ctx, c, "function"@, prefix, cur) + sub_refs(ctx, c, "arguments"@, prefix, cur)
    } else if (c.kind@ == "var_declaration"@ || c.kind@ == "const_declaration"@) && cur is None {
        binding_refs(ctx, c.children@, c.children@.len() as int, prefix)
    } else {
        go_refs(ctx, c, prefix, cur)
    }
}

/// The calls of the first `k` specs' call-running initializers, each belonging to its
/// binding.
pub open spec fn binding_refs(ctx: GoContextView, specs: Seq<Syntax>, k: int, prefix: Seq<char>) -> Seq<RefDeclView>
    decreases specs, k,
{
    if k <= 0 || k > specs.len() {
        Seq::empty()
    } else {
        binding_refs(ctx, specs, k - 1, prefix) + match binding_of(specs[k - 1]) {
            Some(name) => go_refs(ctx, specs[k - 1], prefix, Some(qualify(prefix, name))),
            None => Seq::empty(),
        }
    }
}

/// The calls made below `n`, in document order; `cur` is the function they belong to
/// (`None` outside any).
pub open spec fn go_refs(ctx: GoContextView, n: Syntax, prefix: Seq<char>, cur: Option<Seq<char>>) -> Seq<RefDeclView>
    decreases n, 1int,
{
    go_refs_in(ctx, n.children@, n.children@.len() as int, prefix, cur)
}

pub open spec fn go_refs_in(ctx: GoContextView, cs: Seq<Syntax>, k: int, prefix: Seq<char>, cur: Option<Seq<char>>) -> Seq<
    RefDeclView,
>
    decreases cs, k,
{
    if k <= 0 || k > cs.len() {
        Seq::empty()
    } else {
        go_refs_in(ctx, cs, k - 1, prefix, cur) + refs_of(ctx, cs[k - 1], prefix, cur)
    }
}

/// The context of a Go file: its scope, declared types and struct fields.
pub open spec fn go_context(root: Syntax, prefix: Seq<char>) -> GoContextView {
    GoContextView {
        scope: go_scope(root, prefix),
        types: types_of(Map::empty(), root),
        fields: go_struct_fields(root),
    }
}

/// Every call a Go file makes from inside a function, method or call-running
/// package-level binding.
pub open spec fn go_references(path: Seq<char>, root: Syntax) -> Seq<RefDeclView> {
    go_refs(go_context(root, go_module_prefix(path)), root, go_module_prefix(path), None)
}

pub open spec fn opt_str(o: Option<&String>) -> Option<Seq<char>> {
    match o {
        Some(s) => Some(s@),
        None => None,
    }
}

fn push_sub_refs(ctx: &GoContext, c: &Syntax, field: &str, prefix: &str, cur: Option<&String>, out: &mut Vec<RefDecl>)
    ensures
        ref_views(final(out)@) == ref_views(old(out)@) + sub_refs(ctx@, *c, field@, prefix@, opt_str(cur)),
    decreases c, 2int,
{
    proof {
        lemma_field_index(c.children@, field@, 0);
    }
    let ghost base = ref_views(out@);
    match child_by_field_name(c, field) {
        Some(sub) => {
            collect_refs(ctx, sub, prefix, cur, out);
        },
        None => {
            proof {
                assert(ref_views(out@) =~= base + Seq::<RefDeclView>::empty());
            }
        },
    }
}

fn push_refs_of(ctx: &GoContext, c: &Syntax, prefix: &str, cur: Option<&String>, out: &mut Vec<RefDecl>)
    ensures
        ref_views(final(out)@) == ref_views(old(out)@) + refs_of(ctx@, *c, prefix@, opt_str(cur)),
    decreases c, 3int,
{
    let ghost base = ref_views(out@);
    if is_kind(c, "function_declaration") {
        match field_text_of(c, "name") {
            Some(name) => {
                let q = qualify_text(prefix, name.as_str());
                push_sub_refs(ctx, c, "body", prefix, Some(&q), out);
            },
            None => {
                proof {
                    assert(ref_views(out@) =~= base + Seq::<RefDeclView>::empty());
                }
            },
        }
    } else if is_kind(c, "method_declaration") {
        let receiver = child_by_field_name(c, "receiver");
        let name = field_text_of(c, "name");
        let mut done = false;
        if let Some(r) = receiver {
            if let Some(n) = name {
                if let Some(rt) = last_identifier_text(r) {
                    let inner = qualify_text(prefix, rt.as_str());
                    let q = qualify_text(inner.as_str(), n.as_str());
                    push_sub_refs(ctx, c, "body", prefix, Some(&q), out);
                    done = true;
                }
            }
        }
        if !done {
            proof {
                assert(ref_views(out@) =~= base + Seq::<RefDeclView>::empty());
            }
        }
    } else if is_kind(c, "call_expression") {
        let mut pushed = false;
        if let Some(from) = cur {
            if let Some(f) = child_by_field_name(c, "function") {
                if let Some(name) = last_identifier_text(f) {
                    let r = RefDecl {
                        from_qualified_path: from.clone(),
                        to_name: name.clone(),
                        kind: EdgeKind::Calls,
                        to_target: callee_target(ctx, f),
                    };
                    out.push(r);
                    pushed = true;
                    proof {
                        assert(ref_views(out@) =~= base + call_ref(ctx@, from@, *f));
                    }
                }
            }
        }
        let ghost here = if pushed {
            ref_views(out@).skip(base.len() as int)
        } else {
            Seq::empty()
        };
        proof {
            if !pushed {
                assert(ref_views(out@) =~= base);
            } else {
                assert(ref_views(out@) =~= base + here);
            }
            let want = match (opt_str(cur), child_by_field(*c, "function"@)) {
                (Some(from), Some(f)) => call_ref(ctx@, from, f),
                _ => Seq::empty(),
            };
            assert(here =~= want);
            assert(ref_views(out@) =~= base + want);
        }
        let ghost mid = ref_views(out@);
        push_sub_refs(ctx, c, "function", prefix, cur, out);
        push_sub_refs(ctx, c, "arguments", prefix, cur, out);
        proof {
            assert(ref_views(out@) =~= base + refs_of(ctx@, *c, prefix@, opt_str(cur)));
        }
    } else if (is_kind(c, "var_declaration") || is_kind(c, "const_declaration")) && cur.is_none() {
        let ghost specs = c.children@;
        let mut i: usize = 0;
        proof {
            assert(ref_views(out@) =~= base + binding_refs(ctx@, specs, 0, prefix@));
        }
        while i < c.children.len()
            invariant
                i <= specs.len(),
                specs == c.children@,
                ref_views(out@) == base + binding_refs(ctx@, specs, i as int, prefix@),
            decreases specs.len() - i,
        {
            let spec = &c.children[i];
            let ghost before = ref_views(out@);
            proof {
                assert(decreases_to!(c => specs));
            }
            match crate::go::binding_name_text(spec) {
                Some(name) => {
                    let q = qualify_text(prefix, name.as_str());
                    collect_refs(ctx, spec, prefix, Some(&q), out);
                },
                None => {},
            }
            proof {
                assert(ref_views(out@) =~= base + binding_refs(ctx@, specs, i + 1, prefix@));
            }
            i = i + 1;
        }
    } else {
        collect_refs(ctx, c, prefix, cur, out);
    }
}

fn collect_refs(ctx: &GoContext, n: &Syntax, prefix: &str, cur: Option<&String>, out: &mut Vec<RefDecl>)
    ensures
        ref_views(final(out)@) == ref_views(old(out)@) + go_refs(ctx@, *n, prefix@, opt_str(cur)),
    decreases n, 1int,
{
    let ghost base = ref_views(out@);
    let ghost cs = n.children@;
    let mut i: usize = 0;
    proof {
        assert(base + go_refs_in(ctx@, cs, 0, prefix@, opt_str(cur)) =~= base);
    }
    while i < n.children.len()
        invariant
            i <= cs.len(),
            cs == n.children@,
            ref_views(out@) == base + go_refs_in(ctx@, cs, i as int, prefix@, opt_str(cur)),
        decreases cs.len() - i,
    {
        push_refs_of(ctx, &n.children[i], prefix, cur, out);
        proof {
            assert(base + go_refs_in(ctx@, cs, i + 1, prefix@, opt_str(cur)) =~= base + go_refs_in(ctx@, cs, i as int, prefix@, opt_str(cur))
                + refs_of(ctx@, cs[i as int], prefix@, opt_str(cur)));
        }
        i = i + 1;
    }
}

/// The calls a Go file makes, each from the function, method or package-level binding
/// it belongs to, with where its callee points.
pub fn go_extract_references(file: &SourceFile) -> (r: Vec<RefDecl>)
    ensures
        ref_views(r@) == go_references(file.path@, file.root),
{
    let prefix = module_prefix(file.path.as_str());
    let root = &file.root;
    let scope = build_scope(root, prefix.as_str());
    let mut types: StringHashMap<String> = StringHashMap::new();
    proof {
        assert(string_map(types@) =~= Map::<Seq<char>, Seq<char>>::empty());
    }
    collect_types(root, &mut types);
    let fields = collect_struct_fields(root);
    let ctx = GoContext { scope, types, fields };
    let mut out: Vec<RefDecl> = Vec::new();
    proof {
        assert(ref_views(out@) =~= Seq::<RefDeclView>::empty());
    }
    collect_refs(&ctx, root, prefix.as_str(), None, &mut out);
    proof {
        assert(Seq::<RefDeclView>::empty() + go_refs(ctx@, *root, prefix@, None) =~= go_refs(ctx@, *root, prefix@, None));
    }
    out
}

// ---------------------------------------------------------------------------------------
// The adapter
// ---------------------------------------------------------------------------------------
/// The Go language adapter.
pub struct GoAdapter {
    config: DetectorConfig,
}

impl GoAdapter {
    /// The detector configuration the adapter runs with.
    pub closed spec fn detector(&self) -> DetectorConfig {
        self.config
    }

    pub fn new(config: DetectorConfig) -> (a: Self)
        ensures
            a.detector() == config,
    {
        GoAdapter { config }
    }

    pub fn language_id(&self) -> (id: &'static str)
        ensures
            id@ == "go"@,
    {
        "go"
    }

    /// Parses a Go file with tree-sitter's Go grammar.
    pub fn parse_file(&self, path: &str, source: &str) -> (r: Result<SourceFile, ParseFailure>)
        ensures
            parsed_file(tree_sitter_go_listing(source@), path@, source@, r),
    {
        parse_go(path, source)
    }

    /// The files the adapter claims.
    pub fn file_globs(&self) -> (g: Vec<String>)
        ensures
            string_views(g@) == seq!["**/*.go"@],
    {
        let g = vec!["**/*.go".to_string()];
        proof {
            assert(string_views(g@) =~= seq!["**/*.go"@]);
        }
        g
    }

    pub fn extract_symbols(&self, file: &SourceFile) -> (r: Vec<SymbolDecl>)
        ensures
            decl_views(r@) == go_symbols(file.path@, file.source@, file.root),
    {
        go_extract_symbols(file)
    }

    pub fn extract_references(&self, file: &SourceFile) -> (r: Vec<RefDecl>)
        ensures
            ref_views(r@) == go_references(file.path@, file.root),
    {
        go_extract_references(file)
    }

    pub fn extract_contract_refs(&self, file: &SourceFile) -> (r: Vec<ContractRef>)
        ensures
            contract_views(r@) == go_routes(file.root, net_http_on(self.detector())),
    {
        go_extract_contract_refs(&self.config, file)
    }
}

impl Default for GoAdapter {
    fn default() -> (a: Self)
        ensures
            is_default_config(a.detector()),
    {
        GoAdapter::new(DetectorConfig::default())
    }
}

// ---------------------------------------------------------------------------------------
// No reference without a declaration to own it
// ---------------------------------------------------------------------------------------
/// The declarations a Go call can belong to: a function, a method, or a package-level
/// `var`/`const` binding.
pub open spec fn is_owner_kind(k: Seq<char>) -> bool {
    k == "function_declaration"@ || k == "method_declaration"@ || k == "var_declaration"@ || k == "const_declaration"@
}

/// Whether `n` or anything below it is such a declaration.
pub open spec fn declares_owner(n: Syntax) -> bool
    decreases n, 1int,
{
    is_owner_kind(n.kind@) || declares_owner_in(n.children@, n.children@.len() as int)
}

/// Whether one of the first `k` trees of `cs` declares an owner.
pub open spec fn declares_owner_in(cs: Seq<Syntax>, k: int) -> bool
    decreases cs, k,
{
    if k <= 0 || k > cs.len() {
        false
    } else {
        declares_owner_in(cs, k - 1) || declares_owner(cs[k - 1])
    }
}

proof fn lemma_owner_child(cs: Seq<Syntax>, k: int, j: int)
    requires
        0 <= j < k <= cs.len(),
        !declares_owner_in(cs, k),
    ensures
        !declares_owner(cs[j]),
    decreases k,
{
    if j < k - 1 {
        lemma_owner_child(cs, k - 1, j);
    }
}

proof fn lemma_refs_of_unowned(ctx: GoContextView, c: Syntax, prefix: Seq<char>)
    requires
        !declares_owner(c),
    ensures
        refs_of(ctx, c, prefix, None) == Seq::<RefDeclView>::empty(),
    decreases c, 3int,
{
    if c.kind@ == "call_expression"@ {
        lemma_sub_refs_unowned(ctx, c, "function"@, prefix);
        lemma_sub_refs_unowned(ctx, c, "arguments"@, prefix);
        assert(refs_of(ctx, c, prefix, None) =~= Seq::<RefDeclView>::empty());
    } else {
        lemma_go_refs_unowned(ctx, c, prefix);
    }
}

proof fn lemma_sub_refs_unowned(ctx: GoContextView, c: Syntax, field: Seq<char>, prefix: Seq<char>)
    requires
        !declares_owner(c),
    ensures
        sub_refs(ctx, c, field, prefix, None) == Seq::<RefDeclView>::empty(),
    decreases c, 2int,
{
    if let Some(j) = field_index_from(c.children@, field, 0) {
        if 0 <= j < c.children@.len() {
            lemma_owner_child(c.children@, c.children@.len() as int, j);
            assert(decreases_to!(c => c.children@[j]));
            lemma_go_refs_unowned(ctx, c.children@[j], prefix);
        }
    }
}

proof fn lemma_go_refs_unowned(ctx: GoContextView, n: Syntax, prefix: Seq<char>)
    requires
        !declares_owner(n),
    ensures
        go_refs(ctx, n, prefix, None) == Seq::<RefDeclView>::empty(),
    decreases n, 1int,
{
    lemma_go_refs_in_unowned(ctx, n.children@, n.children@.len() as int, prefix);
}

proof fn lemma_go_refs_in_unowned(ctx: GoContextView, cs: Seq<Syntax>, k: int, prefix: Seq<char>)
    requires
        !declares_owner_in(cs, k),
    ensures
        go_refs_in(ctx, cs, k, prefix, None) == Seq::<RefDeclView>::empty(),
    decreases cs, k,
{
    if 0 < k <= cs.len() {
        lemma_go_refs_in_unowned(ctx, cs, k - 1, prefix);
        lemma_refs_of_unowned(ctx, cs[k - 1], prefix);
        assert(go_refs_in(ctx, cs, k, prefix, None) =~= Seq::<RefDeclView>::empty());
    }
}

/// A Go call belongs to the function, method or package-level binding it sits in: a file
/// that declares none of these yields no reference, whatever calls it holds.
pub proof fn law_no_reference_outside_a_declaration(path: Seq<char>, root: Syntax)
    requires
        !declares_owner(root),
    ensures
        go_references(path, root) == Seq::<RefDeclView>::empty(),
{
    lemma_go_refs_unowned(go_context(root, go_module_prefix(path)), root, go_module_prefix(path));
}

} // verus!
