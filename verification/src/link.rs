//! Turning every reference and contract reference of a project into graph edges.
use vstd::prelude::*;

use crate::adapter::{ContractRef, ContractRole, RefDecl, RefTarget, RefTargetView};
use crate::graph::{Confidence, Edge, EdgeKind, Node, NodeId, NodeKind, SymbolGraph};
use crate::indices::{as_ints, last_match, lemma_last_match, lemma_select, select};
use crate::linker::{
    by_last_two, by_path, by_short, default_export_p, in_module_p, in_module_real_p, opt_pos, resolve_ref_spec,
    resolve_spec, Resolver,
};
use crate::packages::{is_under, is_under_spec, owner_spec, reaches, rewrite_target, PackageEntry, Packages};
use crate::text::str_eq;

verus! {

/// An edge as positions: `(from, to, kind, confidence)`.
pub type EdgeAt = (int, int, EdgeKind, Confidence);

pub open spec fn opt_int(o: Option<usize>) -> Option<int> {
    match o {
        Some(x) => Some(x as int),
        None => None,
    }
}

pub open spec fn all_admitted(n: nat) -> Seq<bool> {
    Seq::new(n, |i: int| true)
}

/// The nodes a call site in `language`, inside package `pkg`, may resolve to: every
/// contract, and every node of its own language that lies outside all packages or in a
/// package its code (its test code, with `as_test`) can reach.
pub open spec fn scope_mask(g: Seq<Node>, p: Seq<PackageEntry>, language: Seq<char>, pkg: Option<int>, as_test: bool) -> Seq<bool> {
    Seq::new(
        g.len(),
        |j: int|
            match g[j].kind {
                NodeKind::Contract(_) => true,
                _ => g[j].language@ == language && match (pkg, owner_spec(p, g[j].language@, g[j].file@)) {
                    (Some(q), Some(o)) => reaches(p, q, o, as_test),
                    _ => true,
                },
            },
    )
}

/// The package of the node at `f`.
pub open spec fn pkg_of(g: Seq<Node>, p: Seq<PackageEntry>, f: int) -> Option<int> {
    owner_spec(p, g[f].language@, g[f].file@)
}

/// The reference target as its package's manifest rewrites it.
pub open spec fn target_for(g: Seq<Node>, p: Seq<PackageEntry>, r: RefDecl, f: int) -> RefTargetView {
    match pkg_of(g, p, f) {
        Some(q) => match rewrite_target(p, q, r.to_target@) {
            Some(t) => t,
            None => r.to_target@,
        },
        None => r.to_target@,
    }
}

/// Whether the call site at `f` counts as test code: it is inside a package and is a
/// test, lies outside the package's shipped source, or stands behind an import.
pub open spec fn as_test_for(g: Seq<Node>, p: Seq<PackageEntry>, r: RefDecl, f: int) -> bool {
    match pkg_of(g, p, f) {
        Some(q) => g[f].is_test || !is_under_spec(g[f].file@, p[q].1.source_root@) || (target_for(g, p, r, f) is Module
            || target_for(g, p, r, f) is ModuleDefault),
        None => false,
    }
}

/// The edges reference `r` produces from the node at `f`.
pub open spec fn edges_from(g: Seq<Node>, p: Seq<PackageEntry>, r: RefDecl, f: int) -> Seq<EdgeAt> {
    let mask = scope_mask(g, p, g[f].language@, pkg_of(g, p, f), as_test_for(g, p, r, f));
    match resolve_ref_spec(g, mask, target_for(g, p, r, f), r.to_name@) {
        Some((tos, c)) => tos.map_values(|t: int| (f, t, r.kind, c)),
        None => Seq::empty(),
    }
}

pub open spec fn from_edges(g: Seq<Node>, p: Seq<PackageEntry>, r: RefDecl, froms: Seq<int>) -> Seq<EdgeAt>
    decreases froms.len(),
{
    if froms.len() == 0 {
        Seq::empty()
    } else {
        from_edges(g, p, r, froms.drop_last()) + edges_from(g, p, r, froms.last())
    }
}

/// The edges one reference produces: from every node its containing path resolves to.
pub open spec fn edges_of_ref(g: Seq<Node>, p: Seq<PackageEntry>, r: RefDecl) -> Seq<EdgeAt> {
    match resolve_spec(g, all_admitted(g.len()), r.from_qualified_path@) {
        Some((froms, _)) => from_edges(g, p, r, froms),
        None => Seq::empty(),
    }
}

pub open spec fn ref_edges(g: Seq<Node>, p: Seq<PackageEntry>, refs: Seq<RefDecl>) -> Seq<EdgeAt>
    decreases refs.len(),
{
    if refs.len() == 0 {
        Seq::empty()
    } else {
        ref_edges(g, p, refs.drop_last()) + edges_of_ref(g, p, refs.last())
    }
}

pub open spec fn role_edge(role: ContractRole) -> EdgeKind {
    match role {
        ContractRole::Produces => EdgeKind::Produces,
        ContractRole::Consumes => EdgeKind::Consumes,
        ContractRole::Reads => EdgeKind::Reads,
        ContractRole::Writes => EdgeKind::Writes,
    }
}

/// Node `i` is a contract whose qualified path is exactly `id`.
pub open spec fn contract_path(g: Seq<Node>, id: Seq<char>) -> spec_fn(int) -> bool {
    |i: int| g[i].kind is Contract && g[i].qualified_path@ == id
}

/// The edges one contract reference produces: from every node its symbol resolves to, to
/// the contract node whose qualified path is exactly the contract id (the last such).
pub open spec fn edges_of_contract(g: Seq<Node>, cr: ContractRef) -> Seq<EdgeAt> {
    let all = all_admitted(g.len());
    match (resolve_spec(g, all, cr.symbol_name@), last_match(g.len(), contract_path(g, cr.contract_id@))) {
        (Some((syms, c)), Some(t)) => syms.map_values(|s: int| (s, t, role_edge(cr.role), c)),
        _ => Seq::empty(),
    }
}

pub open spec fn contract_edges(g: Seq<Node>, crs: Seq<ContractRef>) -> Seq<EdgeAt>
    decreases crs.len(),
{
    if crs.len() == 0 {
        Seq::empty()
    } else {
        contract_edges(g, crs.drop_last()) + edges_of_contract(g, crs.last())
    }
}

/// Everything `link` produces, in order.
pub open spec fn link_spec(g: Seq<Node>, p: Seq<PackageEntry>, refs: Seq<RefDecl>, crs: Seq<ContractRef>) -> Seq<EdgeAt> {
    ref_edges(g, p, refs) + contract_edges(g, crs)
}

/// Each edge is the one its position triple describes.
pub open spec fn edges_match(e: Seq<Edge>, g: Seq<Node>, s: Seq<EdgeAt>) -> bool {
    &&& e.len() == s.len()
    &&& forall|i: int|
        0 <= i < e.len() ==> {
            &&& 0 <= (#[trigger] s[i]).0 < g.len()
            &&& 0 <= s[i].1 < g.len()
            &&& e[i].from.0@ == g[s[i].0].id.0@
            &&& e[i].to.0@ == g[s[i].1].id.0@
            &&& e[i].kind == s[i].2
            &&& e[i].confidence == s[i].3
        }
}

/// A resolver built for one scope.
struct ScopedResolver<'g> {
    language: String,
    package: Option<usize>,
    as_test: bool,
    resolver: Resolver<'g>,
}

spec fn cache_ok<'g>(c: Seq<ScopedResolver<'g>>, graph: &'g SymbolGraph, p: Seq<PackageEntry>) -> bool {
    forall|i: int|
        0 <= i < c.len() ==> {
            &&& (#[trigger] c[i]).resolver.wf()
            &&& c[i].resolver.nodes() == graph.nodes_seq()
            &&& c[i].resolver.mask() == scope_mask(
                graph.nodes_seq(),
                p,
                c[i].language@,
                opt_int(c[i].package),
                c[i].as_test,
            )
        }
}

fn push_edges(
    edges: &mut Vec<Edge>,
    nodes: &[Node],
    from: usize,
    tos: &[usize],
    kind: EdgeKind,
    c: Confidence,
    Ghost(s): Ghost<Seq<EdgeAt>>,
)
    requires
        edges_match(old(edges)@, nodes@, s),
        from < nodes@.len(),
        forall|k: int| 0 <= k < tos@.len() ==> tos@[k] < nodes@.len(),
    ensures
        edges_match(final(edges)@, nodes@, s + as_ints(tos@).map_values(|t: int| (from as int, t, kind, c))),
{
    let mut k: usize = 0;
    while k < tos.len()
        invariant
            from < nodes@.len(),
            forall|t: int| 0 <= t < tos@.len() ==> tos@[t] < nodes@.len(),
            k <= tos@.len(),
            edges_match(edges@, nodes@, s + as_ints(tos@).take(k as int).map_values(|t: int| (from as int, t, kind, c))),
        decreases tos@.len() - k,
    {
        let ghost before = s + as_ints(tos@).take(k as int).map_values(|t: int| (from as int, t, kind, c));
        edges.push(Edge { from: NodeId(nodes[from].id.0.clone()), to: NodeId(nodes[tos[k]].id.0.clone()), kind, confidence: c });
        proof {
            let after = s + as_ints(tos@).take(k + 1).map_values(|t: int| (from as int, t, kind, c));
            assert(after =~= before.push((from as int, tos@[k as int] as int, kind, c)));
        }
        k = k + 1;
    }
    assert(as_ints(tos@).take(k as int) =~= as_ints(tos@));
}

/// The admission mask of one scope.
fn scope_admitted(
    nodes: &[Node],
    owners: &Vec<Option<usize>>,
    packages: &Packages,
    language: &str,
    package: Option<usize>,
    as_test: bool,
) -> (a: Vec<bool>)
    requires
        packages.wf(),
        owners@.len() == nodes@.len(),
        forall|j: int| 0 <= j < nodes@.len() ==> opt_int(#[trigger] owners@[j]) == owner_spec(packages.entries(), nodes@[j].language@, nodes@[j].file@),
        forall|j: int| 0 <= j < nodes@.len() ==> (#[trigger] owners@[j] matches Some(o) ==> o < packages.entries().len()),
        package matches Some(q) ==> q < packages.entries().len(),
    ensures
        a@ == scope_mask(nodes@, packages.entries(), language@, opt_int(package), as_test),
{
    let ghost want = scope_mask(nodes@, packages.entries(), language@, opt_int(package), as_test);
    let mut a: Vec<bool> = Vec::new();
    let mut j: usize = 0;
    while j < nodes.len()
        invariant
            packages.wf(),
            owners@.len() == nodes@.len(),
            forall|j: int| 0 <= j < nodes@.len() ==> opt_int(#[trigger] owners@[j]) == owner_spec(packages.entries(), nodes@[j].language@, nodes@[j].file@),
            forall|j: int| 0 <= j < nodes@.len() ==> (#[trigger] owners@[j] matches Some(o) ==> o < packages.entries().len()),
            package matches Some(q) ==> q < packages.entries().len(),
            want == scope_mask(nodes@, packages.entries(), language@, opt_int(package), as_test),
            j <= nodes@.len(),
            a@ == want.take(j as int),
        decreases nodes@.len() - j,
    {
        let node = &nodes[j];
        let admitted_here = match node.kind {
            NodeKind::Contract(_) => true,
            _ => str_eq(node.language.as_str(), language) && match (package, owners[j]) {
                (Some(q), Some(o)) => packages.can_see(q, o, as_test),
                _ => true,
            },
        };
        a.push(admitted_here);
        proof {
            assert(a@ =~= want.take(j + 1));
        }
        j = j + 1;
    }
    assert(want.take(j as int) =~= want);
    a
}

/// Resolves adapter-emitted `RefDecl`s and `ContractRef`s into graph `Edge`s. Structural,
/// not semantic: a name that could plausibly resolve to several candidates resolves to
/// all of them, with a confidence tier saying so. A call site only ever resolves into its
/// own language, and inside a known package only into what that package can reach, with
/// an import of a package by its import name rewritten to where its symbols live; a
/// contract id must match a node's qualified path exactly.
pub fn link(
    graph: &SymbolGraph,
    refs: &[RefDecl],
    contract_refs: &[ContractRef],
    packages: &[PackageEntry],
) -> (edges: Vec<Edge>)
    ensures
        edges_match(edges@, graph.nodes_seq(), link_spec(graph.nodes_seq(), packages@, refs@, contract_refs@)),
{
    let ghost g = graph.nodes_seq();
    let ghost p = packages@;
    let resolver = Resolver::build(graph);
    let pk = Packages::new(packages);
    let nodes = graph.nodes();
    let mut owners: Vec<Option<usize>> = Vec::new();
    let mut j: usize = 0;
    while j < nodes.len()
        invariant
            nodes@ == g,
            pk.entries() == p,
            j <= g.len(),
            owners@.len() == j,
            forall|i: int| 0 <= i < j ==> opt_int(#[trigger] owners@[i]) == owner_spec(p, g[i].language@, g[i].file@),
            forall|i: int| 0 <= i < j ==> (#[trigger] owners@[i] matches Some(o) ==> o < p.len()),
        decreases g.len() - j,
    {
        let o = pk.owner(nodes[j].language.as_str(), nodes[j].file.as_str());
        owners.push(o);
        j = j + 1;
    }
    let mut cache: Vec<ScopedResolver> = Vec::new();
    let mut edges: Vec<Edge> = Vec::new();
    let mut q: usize = 0;
    while q < refs.len()
        invariant
            nodes@ == g,
            g == graph.nodes_seq(),
            pk.wf(),
            pk.entries() == p,
            resolver.wf(),
            resolver.nodes() == g,
            resolver.mask() == all_admitted(g.len()),
            owners@.len() == g.len(),
            forall|i: int| 0 <= i < g.len() ==> opt_int(#[trigger] owners@[i]) == owner_spec(p, g[i].language@, g[i].file@),
            forall|i: int| 0 <= i < g.len() ==> (#[trigger] owners@[i] matches Some(o) ==> o < p.len()),
            cache_ok(cache@, graph, p),
            q <= refs@.len(),
            edges_match(edges@, g, ref_edges(g, p, refs@.take(q as int))),
        decreases refs@.len() - q,
    {
        let r = &refs[q];
        let ghost done = ref_edges(g, p, refs@.take(q as int));
        proof {
            assert(refs@.take(q + 1).drop_last() =~= refs@.take(q as int));
            assert(refs@.take(q + 1).last() == *r);
        }
        match resolver.resolve_positions(r.from_qualified_path.as_str()) {
            None => {},
            Some((froms, _)) => {
                let mut k: usize = 0;
                while k < froms.len()
                    invariant
                        nodes@ == g,
                        g == graph.nodes_seq(),
                        pk.wf(),
                        pk.entries() == p,
                        owners@.len() == g.len(),
                        forall|i: int| 0 <= i < g.len() ==> opt_int(#[trigger] owners@[i]) == owner_spec(p, g[i].language@, g[i].file@),
                        forall|i: int| 0 <= i < g.len() ==> (#[trigger] owners@[i] matches Some(o) ==> o < p.len()),
                        forall|t: int| 0 <= t < froms@.len() ==> froms@[t] < g.len(),
                        cache_ok(cache@, graph, p),
                        k <= froms@.len(),
                        edges_match(edges@, g, done + from_edges(g, p, *r, as_ints(froms@).take(k as int))),
                    decreases froms@.len() - k,
                {
                    let f = froms[k];
                    let ghost before = done + from_edges(g, p, *r, as_ints(froms@).take(k as int));
                    proof {
                        assert(as_ints(froms@).take(k + 1).drop_last() =~= as_ints(froms@).take(k as int));
                        assert(as_ints(froms@).take(k + 1).last() == f as int);
                    }
                    link_one(graph, nodes, &pk, &owners, &mut cache, r, f, &mut edges, Ghost(before));
                    proof {
                        assert(before + edges_from(g, p, *r, f as int) =~= done + from_edges(g, p, *r, as_ints(froms@).take(k + 1)));
                    }
                    k = k + 1;
                }
                proof {
                    assert(as_ints(froms@).take(k as int) =~= as_ints(froms@));
                }
            },
        }
        proof {
            assert(ref_edges(g, p, refs@.take(q + 1)) == done + edges_of_ref(g, p, *r));
        }
        q = q + 1;
    }
    proof {
        assert(refs@.take(q as int) =~= refs@);
    }
    let ghost ref_part = ref_edges(g, p, refs@);
    let mut t: usize = 0;
    while t < contract_refs.len()
        invariant
            nodes@ == g,
            g == graph.nodes_seq(),
            resolver.wf(),
            resolver.nodes() == g,
            resolver.mask() == all_admitted(g.len()),
            t <= contract_refs@.len(),
            edges_match(edges@, g, ref_part + contract_edges(g, contract_refs@.take(t as int))),
        decreases contract_refs@.len() - t,
    {
        let cr = &contract_refs[t];
        let ghost before = ref_part + contract_edges(g, contract_refs@.take(t as int));
        proof {
            assert(contract_refs@.take(t + 1).drop_last() =~= contract_refs@.take(t as int));
            assert(contract_refs@.take(t + 1).last() == *cr);
        }
        let symbols = resolver.resolve_positions(cr.symbol_name.as_str());
        let target = contract_position(nodes, cr.contract_id.as_str());
        match (symbols, target) {
            (Some((syms, c)), Some(to)) => {
                let kind = match cr.role {
                    ContractRole::Produces => EdgeKind::Produces,
                    ContractRole::Consumes => EdgeKind::Consumes,
                    ContractRole::Reads => EdgeKind::Reads,
                    ContractRole::Writes => EdgeKind::Writes,
                };
                let mut k: usize = 0;
                while k < syms.len()
                    invariant
                        nodes@ == g,
                        to < g.len(),
                        forall|u: int| 0 <= u < syms@.len() ==> syms@[u] < g.len(),
                        k <= syms@.len(),
                        edges_match(edges@, g, before + as_ints(syms@).take(k as int).map_values(|s: int| (s, to as int, kind, c))),
                    decreases syms@.len() - k,
                {
                    let ghost b2 = before + as_ints(syms@).take(k as int).map_values(|s: int| (s, to as int, kind, c));
                    edges.push(Edge { from: NodeId(nodes[syms[k]].id.0.clone()), to: NodeId(nodes[to].id.0.clone()), kind, confidence: c });
                    proof {
                        assert(before + as_ints(syms@).take(k + 1).map_values(|s: int| (s, to as int, kind, c))
                            =~= b2.push((syms@[k as int] as int, to as int, kind, c)));
                    }
                    k = k + 1;
                }
                proof {
                    assert(as_ints(syms@).take(k as int) =~= as_ints(syms@));
                }
            },
            _ => {},
        }
        proof {
            assert(contract_edges(g, contract_refs@.take(t + 1)) == contract_edges(g, contract_refs@.take(t as int)) + edges_of_contract(g, *cr));
            assert(ref_part + contract_edges(g, contract_refs@.take(t + 1)) =~= before + edges_of_contract(g, *cr));
        }
        t = t + 1;
    }
    proof {
        assert(contract_refs@.take(t as int) =~= contract_refs@);
    }
    edges
}

/// The position of the last contract node whose qualified path is exactly `id`.
fn contract_position(nodes: &[Node], id: &str) -> (r: Option<usize>)
    ensures
        opt_pos(r) == last_match(nodes@.len(), contract_path(nodes@, id@)),
        r matches Some(x) ==> x < nodes@.len(),
{
    let ghost g = nodes@;
    let ghost pr = contract_path(g, id@);
    proof {
        lemma_last_match(g.len(), pr);
    }
    let mut i: usize = nodes.len();
    while i > 0
        invariant
            i <= g.len(),
            g == nodes@,
            pr == contract_path(g, id@),
            forall|j: int| i <= j < g.len() ==> !#[trigger] pr(j),
        decreases i,
    {
        i = i - 1;
        let is_contract = match nodes[i].kind {
            NodeKind::Contract(_) => true,
            _ => false,
        };
        if is_contract && str_eq(nodes[i].qualified_path.as_str(), id) {
            proof {
                assert(pr(i as int));
                lemma_last_match(g.len(), pr);
                if let Some(m) = last_match(g.len(), pr) {
                    if m > i as int {
                        assert(!pr(m));
                    }
                }
            }
            return Some(i);
        }
        proof {
            assert(!pr(i as int));
        }
    }
    proof {
        if let Some(m) = last_match(g.len(), pr) {
            assert(pr(m));
        }
    }
    None
}

/// The edges from node `f` for reference `r`, through the resolver of its scope (built on
/// first use).
fn link_one<'g>(
    graph: &'g SymbolGraph,
    nodes: &[Node],
    pk: &Packages,
    owners: &Vec<Option<usize>>,
    cache: &mut Vec<ScopedResolver<'g>>,
    r: &RefDecl,
    f: usize,
    edges: &mut Vec<Edge>,
    Ghost(before): Ghost<Seq<EdgeAt>>,
)
    requires
        nodes@ == graph.nodes_seq(),
        pk.wf(),
        owners@.len() == nodes@.len(),
        forall|i: int| 0 <= i < nodes@.len() ==> opt_int(#[trigger] owners@[i]) == owner_spec(pk.entries(), nodes@[i].language@, nodes@[i].file@),
        forall|i: int| 0 <= i < nodes@.len() ==> (#[trigger] owners@[i] matches Some(o) ==> o < pk.entries().len()),
        f < nodes@.len(),
        cache_ok(old(cache)@, graph, pk.entries()),
        edges_match(old(edges)@, nodes@, before),
    ensures
        cache_ok(final(cache)@, graph, pk.entries()),
        edges_match(final(edges)@, nodes@, before + edges_from(nodes@, pk.entries(), *r, f as int)),
{
    let ghost g = nodes@;
    let ghost p = pk.entries();
    let node = &nodes[f];
    let package = owners[f];
    let rewritten = match package {
        Some(pi) => pk.rewrite(pi, r),
        None => None,
    };
    let resolved: &RefDecl = match &rewritten {
        Some(x) => x,
        None => r,
    };
    proof {
        assert(resolved.to_target@ == target_for(g, p, *r, f as int));
        assert(resolved.to_name@ == r.to_name@);
    }
    let behind_import = match &resolved.to_target {
        RefTarget::Module(_) => true,
        RefTarget::ModuleDefault(_) => true,
        _ => false,
    };
    let as_test = match package {
        Some(pi) => node.is_test || !is_under(node.file.as_str(), pk.source_root(pi)) || behind_import,
        None => false,
    };
    proof {
        assert(as_test == as_test_for(g, p, *r, f as int));
    }
    let language = node.language.as_str();
    let mut idx: usize = 0;
    let mut found = false;
    while idx < cache.len()
        invariant
            cache_ok(cache@, graph, p),
            idx <= cache@.len(),
            found ==> idx < cache@.len() && cache@[idx as int].language@ == language@
                && opt_int(cache@[idx as int].package) == opt_int(package) && cache@[idx as int].as_test == as_test,
        decreases cache@.len() - idx,
    {
        let e = &cache[idx];
        if str_eq(e.language.as_str(), language) && e.package == package && e.as_test == as_test {
            found = true;
            break;
        }
        idx = idx + 1;
    }
    if !found {
        let admitted = scope_admitted(nodes, owners, pk, language, package, as_test);
        let built = Resolver::build_where(graph, admitted);
        let entry = ScopedResolver { language: node.language.clone(), package, as_test, resolver: built };
        idx = cache.len();
        cache.push(entry);
        proof {
            assert forall|i: int| 0 <= i < cache@.len() implies {
                &&& (#[trigger] cache@[i]).resolver.wf()
                &&& cache@[i].resolver.nodes() == graph.nodes_seq()
                &&& cache@[i].resolver.mask() == scope_mask(graph.nodes_seq(), p, cache@[i].language@, opt_int(cache@[i].package), cache@[i].as_test)
            } by {
                if i < idx {
                    assert(cache@[i] == old(cache)@[i]);
                }
            }
        }
    }
    let scoped = &cache[idx].resolver;
    match scoped.resolve_ref_positions(resolved) {
        Some((tos, c)) => {
            push_edges(edges, nodes, f, tos.as_slice(), r.kind, c, Ghost(before));
        },
        None => {
            assert(edges_from(g, p, *r, f as int) =~= Seq::<EdgeAt>::empty());
            assert(before + edges_from(g, p, *r, f as int) =~= before);
        },
    }
}

// ---------------------------------------------------------------------------------------
// Where a call site may resolve
// ---------------------------------------------------------------------------------------
/// The positions a name resolves to are nodes the scope admits.
proof fn lemma_resolve_admitted(g: Seq<Node>, a: Seq<bool>, name: Seq<char>)
    requires
        a.len() == g.len(),
    ensures
        resolve_spec(g, a, name) matches Some((ids, _)) ==> forall|k: int|
            0 <= k < ids.len() ==> 0 <= #[trigger] ids[k] < g.len() && a[ids[k]],
{
    lemma_last_match(g.len(), by_path(g, a, name));
    lemma_select(g.len(), by_last_two(g, a, name));
    lemma_select(g.len(), by_short(g, a, name));
}

/// The positions a call site resolves to are nodes the scope admits.
proof fn lemma_resolve_ref_admitted(g: Seq<Node>, a: Seq<bool>, target: RefTargetView, name: Seq<char>)
    requires
        a.len() == g.len(),
    ensures
        resolve_ref_spec(g, a, target, name) matches Some((ids, _)) ==> forall|k: int|
            0 <= k < ids.len() ==> 0 <= #[trigger] ids[k] < g.len() && a[ids[k]],
{
    lemma_resolve_admitted(g, a, name);
    match target {
        RefTargetView::Module(m) => {
            lemma_select(g.len(), in_module_real_p(g, a, m, name));
            lemma_select(g.len(), in_module_p(g, a, m, name));
        },
        RefTargetView::ModuleDefault(m) => {
            lemma_select(g.len(), default_export_p(g, a, m));
        },
        _ => {},
    }
}

/// A call site at `f` may resolve to the node at `t`: a contract, or a node of its own
/// language that either lies outside every package or sits in one that the call site's
/// package reaches — from its shipped code, or (with `as_test`) from its test code.
pub open spec fn may_reach(g: Seq<Node>, p: Seq<PackageEntry>, f: int, t: int, as_test: bool) -> bool {
    0 <= t < g.len() && match g[t].kind {
        NodeKind::Contract(_) => true,
        _ => g[t].language@ == g[f].language@ && match (pkg_of(g, p, f), pkg_of(g, p, t)) {
            (Some(q), Some(o)) => reaches(p, q, o, as_test),
            _ => true,
        },
    }
}

proof fn lemma_edges_from_scoped(g: Seq<Node>, p: Seq<PackageEntry>, r: RefDecl, f: int)
    requires
        0 <= f < g.len(),
    ensures
        forall|k: int| 0 <= k < edges_from(g, p, r, f).len() ==> #[trigger] edges_from(g, p, r, f)[k].0 == f
            && edges_from(g, p, r, f)[k].2 == r.kind && may_reach(g, p, f, edges_from(g, p, r, f)[k].1, as_test_for(g, p, r, f)),
{
    let mask = scope_mask(g, p, g[f].language@, pkg_of(g, p, f), as_test_for(g, p, r, f));
    lemma_resolve_ref_admitted(g, mask, target_for(g, p, r, f), r.to_name@);
}

proof fn lemma_from_edges_scoped(g: Seq<Node>, p: Seq<PackageEntry>, r: RefDecl, froms: Seq<int>)
    requires
        forall|k: int| 0 <= k < froms.len() ==> 0 <= #[trigger] froms[k] < g.len(),
    ensures
        forall|k: int| 0 <= k < from_edges(g, p, r, froms).len() ==> {
            let e = #[trigger] from_edges(g, p, r, froms)[k];
            0 <= e.0 < g.len() && e.2 == r.kind && may_reach(g, p, e.0, e.1, as_test_for(g, p, r, e.0))
        },
    decreases froms.len(),
{
    if froms.len() > 0 {
        let a = from_edges(g, p, r, froms.drop_last());
        let b = edges_from(g, p, r, froms.last());
        lemma_from_edges_scoped(g, p, r, froms.drop_last());
        lemma_edges_from_scoped(g, p, r, froms.last());
        assert forall|k: int| 0 <= k < (a + b).len() implies ({
            let e = #[trigger] (a + b)[k];
            0 <= e.0 < g.len() && e.2 == r.kind && may_reach(g, p, e.0, e.1, as_test_for(g, p, r, e.0))
        }) by {
            if k < a.len() {
                assert((a + b)[k] == a[k]);
            } else {
                assert((a + b)[k] == b[k - a.len()]);
            }
        }
    }
}

/// A call site only ever resolves into its own language, and from inside a package only
/// into what that package can reach: every edge linked from a reference leads to a
/// contract, or to a node of the caller's language that lies outside every package or
/// in one the caller's package reaches — from its shipped code, unless the reference is
/// test code (a test, a file outside the package's shipped source, or a reference an
/// import stands behind), which may also reach the package's dev-only dependencies.
pub proof fn law_calls_stay_in_scope(g: Seq<Node>, p: Seq<PackageEntry>, refs: Seq<RefDecl>)
    ensures
        forall|k: int| 0 <= k < ref_edges(g, p, refs).len() ==> {
            let e = #[trigger] ref_edges(g, p, refs)[k];
            0 <= e.0 < g.len() && exists|j: int|
                0 <= j < refs.len() && refs[j].kind == e.2 && may_reach(g, p, e.0, e.1, as_test_for(g, p, refs[j], e.0))
        },
    decreases refs.len(),
{
    if refs.len() > 0 {
        let r = refs.last();
        let a = ref_edges(g, p, refs.drop_last());
        let b = edges_of_ref(g, p, r);
        law_calls_stay_in_scope(g, p, refs.drop_last());
        lemma_resolve_admitted(g, all_admitted(g.len()), r.from_qualified_path@);
        match resolve_spec(g, all_admitted(g.len()), r.from_qualified_path@) {
            Some((froms, _)) => lemma_from_edges_scoped(g, p, r, froms),
            None => {},
        }
        assert forall|k: int| 0 <= k < (a + b).len() implies ({
            let e = #[trigger] (a + b)[k];
            0 <= e.0 < g.len() && exists|j: int|
                0 <= j < refs.len() && refs[j].kind == e.2 && may_reach(g, p, e.0, e.1, as_test_for(g, p, refs[j], e.0))
        }) by {
            let e = (a + b)[k];
            if k < a.len() {
                assert((a + b)[k] == a[k]);
                let j = choose|j: int|
                    0 <= j < refs.len() - 1 && refs.drop_last()[j].kind == e.2 && may_reach(
                        g,
                        p,
                        e.0,
                        e.1,
                        as_test_for(g, p, refs.drop_last()[j], e.0),
                    );
                assert(refs.drop_last()[j] == refs[j]);
            } else {
                assert((a + b)[k] == b[k - a.len()]);
                assert(refs[refs.len() - 1] == r);
            }
        }
    }
}

/// A contract edge always leads to a contract node whose qualified path is exactly the
/// contract id, never to a fuzzier match and never to a node of another kind.
pub proof fn law_contract_identity_is_exact(g: Seq<Node>, crs: Seq<ContractRef>)
    ensures
        forall|k: int| 0 <= k < contract_edges(g, crs).len() ==> {
            let t = #[trigger] contract_edges(g, crs)[k].1;
            0 <= t < g.len() && g[t].kind is Contract && exists|j: int|
                0 <= j < crs.len() && g[t].qualified_path@ == crs[j].contract_id@
        },
    decreases crs.len(),
{
    if crs.len() > 0 {
        let cr = crs.last();
        let a = contract_edges(g, crs.drop_last());
        let b = edges_of_contract(g, cr);
        law_contract_identity_is_exact(g, crs.drop_last());
        lemma_last_match(g.len(), contract_path(g, cr.contract_id@));
        assert forall|k: int| 0 <= k < (a + b).len() implies ({
            let t = #[trigger] (a + b)[k].1;
            0 <= t < g.len() && g[t].kind is Contract && exists|j: int|
                0 <= j < crs.len() && g[t].qualified_path@ == crs[j].contract_id@
        }) by {
            if k < a.len() {
                assert((a + b)[k] == a[k]);
                let t = a[k].1;
                let j = choose|j: int| 0 <= j < crs.len() - 1 && g[t].qualified_path@ == crs.drop_last()[j].contract_id@;
                assert(crs.drop_last()[j] == crs[j]);
            } else {
                assert((a + b)[k] == b[k - a.len()]);
                assert(crs[crs.len() - 1] == cr);
            }
        }
    }
}

} // verus!
