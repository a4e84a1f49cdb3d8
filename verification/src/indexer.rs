//! The decisions of an indexing run: which adapter a file goes to, the nodes a file's
//! declarations become, the contract nodes the run synthesizes, and which events lost a
//! producer or a consumer. Walking the project and reading and writing the cache are
//! left to the caller.
use vstd::prelude::*;

use crate::adapter::{ContractRef, SymbolDecl};
use crate::engine::{node_of, string_views};
use crate::graph::{
    blake3_hex, blake3_hex_digest, has_id, inserted, node_id_seed, ContractKind, Edge, EdgeKind, Node, NodeId, NodeKind, SymbolGraph,
};
use crate::order::{char_views, insert_sorted, lex_lt, strictly_sorted};
use crate::text::{chars_eq, chars_of, str_eq, string_of};

verus! {

#[derive(Debug, Clone, Default)]
pub struct IndexStats {
    pub files_indexed: usize,
    pub files_skipped: usize,
    /// Files dropped from the cache because they are no longer on disk.
    pub files_pruned: usize,
    pub symbols_indexed: usize,
    /// Events that had a producer and a consumer before this run and lost one of them.
    pub orphaned_events: Vec<OrphanedEvent>,
    pub duration_ms: u128,
}

/// An event contract that had at least one producer and one consumer before a run and
/// lost one of those sides on it. Not proof of a mistake, but worth a second look.
#[derive(Debug, Clone, PartialEq, Eq)]
pub struct OrphanedEvent {
    pub event: String,
    pub lost_producer: bool,
    pub lost_consumer: bool,
}

// ---------------------------------------------------------------------------------------
// Routing files to adapters
// ---------------------------------------------------------------------------------------
#[verifier::external_type_specification]
#[verifier::external_body]
pub struct ExGlobError(globset::Error);

/// A glob pattern that does not compile; the `globset` error inside says which and why.
#[derive(Debug)]
pub struct GlobError(pub globset::Error);

/// Whether any of the glob `patterns` matches `path`, as `globset` decides it.
pub uninterp spec fn glob_set_accepts(patterns: Seq<Seq<char>>, path: Seq<char>) -> bool;

/// Whether `globset` compiles every one of `patterns` and builds a set from them.
pub uninterp spec fn glob_set_builds(patterns: Seq<Seq<char>>) -> bool;

/// `globset`: a `GlobSet` built with `GlobSetBuilder` from `Glob::new` of each pattern,
/// asked `is_match` on `path`. Whether the set builds is named by `glob_set_builds`, and
/// the answer, when it does, by `glob_set_accepts`.
#[verifier::external_body]
fn globs_match(patterns: &Vec<String>, path: &str) -> (r: Result<bool, globset::Error>)
    ensures
        r is Ok <==> glob_set_builds(string_views(patterns@)),
        r matches Ok(b) ==> b == glob_set_accepts(string_views(patterns@), path@),
{
    let mut builder = globset::GlobSetBuilder::new();
    for p in patterns.iter() {
        builder.add(globset::Glob::new(p)?);
    }
    Ok(builder.build()?.is_match(path))
}

/// The adapter a file goes to (`Some(None)`: none), or `None` when a pattern consulted on
/// the way does not compile: the exclusion patterns first (a match excludes the file),
/// then each adapter's patterns in registration order until one matches.
pub open spec fn route_outcome(adapter_globs: Seq<Seq<Seq<char>>>, exclude: Seq<Seq<char>>, rel: Seq<char>) -> Option<Option<int>> {
    if !glob_set_builds(exclude) {
        None
    } else if glob_set_accepts(exclude, rel) {
        Some(None)
    } else {
        first_accepting(adapter_globs, rel, 0)
    }
}

pub open spec fn first_accepting(adapter_globs: Seq<Seq<Seq<char>>>, rel: Seq<char>, from: int) -> Option<Option<int>>
    decreases adapter_globs.len() - from,
{
    if from >= adapter_globs.len() || from < 0 {
        Some(None)
    } else if !glob_set_builds(adapter_globs[from]) {
        None
    } else if glob_set_accepts(adapter_globs[from], rel) {
        Some(Some(from))
    } else {
        first_accepting(adapter_globs, rel, from + 1)
    }
}

pub open spec fn glob_lists(v: Seq<Vec<String>>) -> Seq<Seq<Seq<char>>> {
    v.map_values(|g: Vec<String>| string_views(g@))
}

/// Whether every pattern list compiles: the exclusion patterns and each adapter's.
pub open spec fn all_globs_build(adapter_globs: Seq<Seq<Seq<char>>>, exclude: Seq<Seq<char>>) -> bool {
    glob_set_builds(exclude) && forall|i: int| 0 <= i < adapter_globs.len() ==> glob_set_builds(#[trigger] adapter_globs[i])
}

/// Compiles every pattern list before any file is routed, so a pattern that does not
/// compile is reported before a file is read.
pub fn check_globs(adapter_globs: &Vec<Vec<String>>, exclude: &Vec<String>) -> (r: Result<(), GlobError>)
    ensures
        r is Ok <==> all_globs_build(glob_lists(adapter_globs@), string_views(exclude@)),
{
    let ghost gl = glob_lists(adapter_globs@);
    if let Err(e) = globs_match(exclude, "") {
        return Err(GlobError(e));
    }
    let mut i: usize = 0;
    while i < adapter_globs.len()
        invariant
            i <= adapter_globs@.len(),
            gl == glob_lists(adapter_globs@),
            glob_set_builds(string_views(exclude@)),
            forall|j: int| 0 <= j < i ==> glob_set_builds(#[trigger] gl[j]),
        decreases adapter_globs@.len() - i,
    {
        proof {
            assert(gl[i as int] == string_views(adapter_globs@[i as int]@));
        }
        if let Err(e) = globs_match(&adapter_globs[i], "") {
            return Err(GlobError(e));
        }
        i = i + 1;
    }
    Ok(())
}

/// Which adapter (by position) claims the file at `rel`, if any.
pub fn route_file(adapter_globs: &Vec<Vec<String>>, exclude: &Vec<String>, rel: &str) -> (r: Result<Option<usize>, GlobError>)
    ensures
        match route_outcome(glob_lists(adapter_globs@), string_views(exclude@), rel@) {
            Some(Some(i)) => r == Ok::<Option<usize>, GlobError>(Some(i as usize)),
            Some(None) => r matches Ok(o) && o is None,
            None => r is Err,
        },
{
    let ghost gl = glob_lists(adapter_globs@);
    proof {
        assert(gl.len() == adapter_globs@.len());
    }
    match globs_match(exclude, rel) {
        Ok(true) => return Ok(None),
        Ok(false) => {},
        Err(e) => return Err(GlobError(e)),
    }
    let mut i: usize = 0;
    while i < adapter_globs.len()
        invariant
            i <= adapter_globs@.len(),
            gl == glob_lists(adapter_globs@),
            gl.len() == adapter_globs@.len(),
            glob_set_builds(string_views(exclude@)),
            !glob_set_accepts(string_views(exclude@), rel@),
            first_accepting(gl, rel@, 0) == first_accepting(gl, rel@, i as int),
        decreases adapter_globs@.len() - i,
    {
        proof {
            assert(gl.len() == adapter_globs@.len());
            assert(gl[i as int] == string_views(adapter_globs@[i as int]@));
        }
        match globs_match(&adapter_globs[i], rel) {
            Ok(true) => return Ok(Some(i)),
            Ok(false) => {},
            Err(e) => return Err(GlobError(e)),
        }
        i = i + 1;
    }
    Ok(None)
}

/// The hash a file's content is cached under: the BLAKE3 digest of its UTF-8 bytes, in
/// lowercase hex. An unchanged file hashes the same on the next run and is skipped.
pub fn content_hash(content: &str) -> (h: String)
    ensures
        h@ == blake3_hex(vstd::utf8::encode_utf8(content@)),
        h@.len() == 64,
{
    blake3_hex_digest(content.as_bytes())
}

/// Whether a file must be parsed again: unless the cache holds exactly its current content
/// hash, it must.
pub fn needs_reindex(cached_hash: &Option<String>, hash: &str) -> (b: bool)
    ensures
        b == !(cached_hash matches Some(h) && h@ == hash@),
{
    match cached_hash {
        Some(h) => !str_eq(h.as_str(), hash),
        None => true,
    }
}

// ---------------------------------------------------------------------------------------
// Nodes
// ---------------------------------------------------------------------------------------
/// The id a node of `project` gets for `path` and `kind` (see `NodeId::new`).
pub open spec fn id_for(project: Seq<char>, path: Seq<char>, kind: NodeKind) -> Seq<char> {
    blake3_hex(vstd::utf8::encode_utf8(node_id_seed(project, path, kind)))
}

/// The graph node a declaration of `file` (in `language`) becomes.
pub fn decl_node(project_id: &str, file: &str, language: &str, decl: &SymbolDecl) -> (n: Node)
    ensures
        n.id.0@ == id_for(project_id@, decl.qualified_path@, decl.kind),
        n.kind == decl.kind,
        n.qualified_path@ == decl.qualified_path@,
        n.file@ == file@,
        n.line == decl.line,
        n.end_line == decl.end_line,
        n.language@ == language@,
        n.is_test == decl.is_test,
        n.is_generated == decl.is_generated,
        n.is_default_export == decl.is_default_export,
{
    Node {
        id: NodeId::new(project_id, decl.qualified_path.as_str(), decl.kind),
        kind: decl.kind,
        qualified_path: decl.qualified_path.clone(),
        file: file.to_string(),
        line: decl.line,
        end_line: decl.end_line,
        language: language.to_string(),
        is_test: decl.is_test,
        is_generated: decl.is_generated,
        is_default_export: decl.is_default_export,
    }
}

/// Contract kinds whose only declaration is the reference itself (a route registration,
/// a table named in a query): the indexer makes their nodes. Events are declared by
/// their own types and never synthesized.
pub open spec fn synthesized_kind(k: ContractKind) -> bool {
    k == ContractKind::ApiRoute || k == ContractKind::Table
}

/// `n` declares contract `c`.
pub open spec fn declares(n: Node, c: (ContractKind, Seq<char>)) -> bool {
    n.kind == NodeKind::Contract(c.0) && n.qualified_path@ == c.1
}

/// The contracts (kind and id) the graph's nodes already declare.
pub open spec fn declared_contracts(nodes: Seq<Node>) -> Set<(ContractKind, Seq<char>)> {
    Set::new(|c: (ContractKind, Seq<char>)| exists|i: int| 0 <= i < nodes.len() && #[trigger] declares(nodes[i], c))
}

/// The contracts to synthesize for `refs`, in order: each route or table not yet known,
/// once.
pub open spec fn to_synthesize(known: Set<(ContractKind, Seq<char>)>, refs: Seq<ContractRef>) -> Seq<(ContractKind, Seq<char>)>
    decreases refs.len(),
{
    if refs.len() == 0 {
        Seq::empty()
    } else {
        let c = (refs[0].contract_kind, refs[0].contract_id@);
        if synthesized_kind(c.0) && !known.contains(c) {
            seq![c] + to_synthesize(known.insert(c), refs.skip(1))
        } else {
            to_synthesize(known, refs.skip(1))
        }
    }
}

/// `n` is the synthesized node of `project` for contract `c`: no file, no line.
pub open spec fn is_contract_node(project: Seq<char>, c: (ContractKind, Seq<char>), n: Node) -> bool {
    &&& n.id.0@ == id_for(project, c.1, NodeKind::Contract(c.0))
    &&& n.kind == NodeKind::Contract(c.0)
    &&& n.qualified_path@ == c.1
    &&& n.file@ == Seq::<char>::empty()
    &&& n.line == 0
    &&& n.end_line == 0
    &&& n.language@ == Seq::<char>::empty()
    &&& !n.is_test && !n.is_generated && !n.is_default_export
}

/// The node list after inserting `ns` one by one.
pub open spec fn inserted_all(nodes: Seq<Node>, ns: Seq<Node>) -> Seq<Node>
    decreases ns.len(),
{
    if ns.len() == 0 {
        nodes
    } else {
        inserted_all(inserted(nodes, ns[0]), ns.skip(1))
    }
}

proof fn lemma_inserted_all_push(nodes: Seq<Node>, ns: Seq<Node>, n: Node)
    ensures
        inserted_all(nodes, ns.push(n)) == inserted(inserted_all(nodes, ns), n),
    decreases ns.len(),
{
    if ns.len() == 0 {
        assert(ns.push(n).skip(1) =~= Seq::<Node>::empty());
        assert(ns.push(n)[0] == n);
        assert(inserted_all(nodes, ns) == nodes);
        assert(inserted_all(inserted(nodes, n), Seq::<Node>::empty()) == inserted(nodes, n));
    } else {
        assert(ns.push(n).skip(1) =~= ns.skip(1).push(n));
        assert(ns.push(n)[0] == ns[0]);
        lemma_inserted_all_push(inserted(nodes, ns[0]), ns.skip(1), n);
    }
}

proof fn lemma_to_synthesize_step(known: Set<(ContractKind, Seq<char>)>, refs: Seq<ContractRef>, i: int)
    requires
        0 <= i < refs.len(),
    ensures
        ({
            let c = (refs[i].contract_kind, refs[i].contract_id@);
            to_synthesize(known, refs.skip(i)) == if synthesized_kind(c.0) && !known.contains(c) {
                seq![c] + to_synthesize(known.insert(c), refs.skip(i + 1))
            } else {
                to_synthesize(known, refs.skip(i + 1))
            }
        }),
{
    assert(refs.skip(i)[0] == refs[i]);
    assert(refs.skip(i).skip(1) =~= refs.skip(i + 1));
}

fn contract_key_eq(a: ContractKind, b: ContractKind) -> (r: bool)
    ensures
        r == (a == b),
{
    match (a, b) {
        (ContractKind::ApiRoute, ContractKind::ApiRoute) => true,
        (ContractKind::Event, ContractKind::Event) => true,
        (ContractKind::Table, ContractKind::Table) => true,
        (ContractKind::Test, ContractKind::Test) => true,
        _ => false,
    }
}

pub open spec fn key_views(v: Seq<(ContractKind, String)>) -> Seq<(ContractKind, Seq<char>)> {
    v.map_values(|k: (ContractKind, String)| (k.0, k.1@))
}

fn knows(known: &Vec<(ContractKind, String)>, kind: ContractKind, id: &str) -> (r: bool)
    ensures
        r == key_views(known@).contains((kind, id@)),
{
    let ghost kv = key_views(known@);
    let mut i: usize = 0;
    while i < known.len()
        invariant
            i <= known@.len(),
            kv == key_views(known@),
            forall|j: int| 0 <= j < i ==> kv[j] != (kind, id@),
        decreases known@.len() - i,
    {
        if contract_key_eq(known[i].0, kind) && str_eq(known[i].1.as_str(), id) {
            proof {
                assert(kv[i as int] == (kind, id@));
            }
            return true;
        }
        i = i + 1;
    }
    false
}

/// Routes and tables have no declaration of their own: the reference is the declaration.
/// Adds to `graph` a node for each route or table some contract reference names that the
/// graph does not declare yet (each once, in reference order), and returns those nodes.
pub fn synthesize_contracts(project_id: &str, graph: &mut SymbolGraph, contract_refs: &Vec<ContractRef>) -> (r: Vec<Node>)
    ensures
        r@.len() == to_synthesize(declared_contracts(old(graph).nodes_seq()), contract_refs@).len(),
        forall|i: int| 0 <= i < r@.len() ==> is_contract_node(
            project_id@,
            #[trigger] to_synthesize(declared_contracts(old(graph).nodes_seq()), contract_refs@)[i],
            r@[i],
        ),
        final(graph).nodes_seq() == inserted_all(old(graph).nodes_seq(), r@),
        final(graph).edges_seq() == old(graph).edges_seq(),
{
    let ghost g0 = graph.nodes_seq();
    let ghost k0 = declared_contracts(g0);
    let ghost want = to_synthesize(k0, contract_refs@);
    let mut known: Vec<(ContractKind, String)> = Vec::new();
    let nodes = graph.nodes();
    let mut i: usize = 0;
    while i < nodes.len()
        invariant
            i <= nodes@.len(),
            nodes@ == g0,
            forall|c: (ContractKind, Seq<char>)| key_views(known@).contains(c) <==> exists|j: int| 0 <= j < i && #[trigger] declares(nodes@[j], c),
        decreases nodes@.len() - i,
    {
        let ghost before = key_views(known@);
        match nodes[i].kind {
            NodeKind::Contract(k) => {
                known.push((k, nodes[i].qualified_path.clone()));
                proof {
                    assert(key_views(known@) =~= before.push((k, nodes@[i as int].qualified_path@)));
                    assert forall|c: (ContractKind, Seq<char>)| key_views(known@).contains(c) <==> exists|j: int| 0 <= j < i + 1 && #[trigger] declares(nodes@[j], c) by {
                        if key_views(known@).contains(c) && !before.contains(c) {
                            assert(c == (k, nodes@[i as int].qualified_path@));
                        }
                        if before.contains(c) {
                            let w = choose|w: int| 0 <= w < before.len() && before[w] == c;
                            assert(key_views(known@)[w] == c);
                            let j = choose|j: int| 0 <= j < i && #[trigger] declares(nodes@[j], c);
                            assert(declares(nodes@[j], c));
                        }
                        if c == (k, nodes@[i as int].qualified_path@) {
                            assert(declares(nodes@[i as int], c));
                            assert(key_views(known@)[before.len() as int] == c);
                        }
                        if exists|j: int| 0 <= j < i + 1 && #[trigger] declares(nodes@[j], c) {
                            let j = choose|j: int| 0 <= j < i + 1 && #[trigger] declares(nodes@[j], c);
                            if j < i {
                                assert(before.contains(c));
                            }
                        }
                    }
                }
            },
            _ => {
                proof {
                    assert forall|c: (ContractKind, Seq<char>)| key_views(known@).contains(c) <==> exists|j: int| 0 <= j < i + 1 && #[trigger] declares(nodes@[j], c) by {
                        if exists|j: int| 0 <= j < i + 1 && #[trigger] declares(nodes@[j], c) {
                            let j = choose|j: int| 0 <= j < i + 1 && #[trigger] declares(nodes@[j], c);
                            assert(j != i);
                        }
                        if key_views(known@).contains(c) {
                            let j = choose|j: int| 0 <= j < i && #[trigger] declares(nodes@[j], c);
                            assert(declares(nodes@[j], c));
                        }
                    }
                }
            },
        }
        i = i + 1;
    }
    proof {
        assert(key_views(known@).to_set() =~= k0) by {
            assert forall|c: (ContractKind, Seq<char>)| key_views(known@).to_set().contains(c) <==> k0.contains(c) by {}
        }
        assert(contract_refs@.skip(0) =~= contract_refs@);
    }
    let mut out: Vec<Node> = Vec::new();
    let mut q: usize = 0;
    while q < contract_refs.len()
        invariant
            q <= contract_refs@.len(),
            want == to_synthesize(k0, contract_refs@),
            want == (out@.map_values(|n: Node| (match n.kind {
                NodeKind::Contract(k) => k,
                _ => ContractKind::Test,
            }, n.qualified_path@))) + to_synthesize(key_views(known@).to_set(), contract_refs@.skip(q as int)),
            forall|j: int| 0 <= j < out@.len() ==> is_contract_node(project_id@, #[trigger] want[j], out@[j]),
            graph.nodes_seq() == inserted_all(g0, out@),
            graph.edges_seq() == old(graph).edges_seq(),
        decreases contract_refs@.len() - q,
    {
        let cr = &contract_refs[q];
        let ghost kset = key_views(known@).to_set();
        let ghost c = (cr.contract_kind, cr.contract_id@);
        proof {
            lemma_to_synthesize_step(kset, contract_refs@, q as int);
        }
        let wanted = match cr.contract_kind {
            ContractKind::ApiRoute => true,
            ContractKind::Table => true,
            _ => false,
        };
        if wanted && !knows(&known, cr.contract_kind, cr.contract_id.as_str()) {
            let ghost before_keys = key_views(known@);
            let ghost before_out = out@;
            known.push((cr.contract_kind, cr.contract_id.clone()));
            let node = Node {
                id: NodeId::new(project_id, cr.contract_id.as_str(), NodeKind::Contract(cr.contract_kind)),
                kind: NodeKind::Contract(cr.contract_kind),
                qualified_path: cr.contract_id.clone(),
                file: String::new(),
                line: 0,
                end_line: 0,
                language: String::new(),
                is_test: false,
                is_generated: false,
                is_default_export: false,
            };
            let copy = Node {
                id: NodeId(node.id.0.clone()),
                kind: node.kind,
                qualified_path: node.qualified_path.clone(),
                file: node.file.clone(),
                line: 0,
                end_line: 0,
                language: node.language.clone(),
                is_test: false,
                is_generated: false,
                is_default_export: false,
            };
            graph.insert_node(copy);
            out.push(node);
            proof {
                assert(key_views(known@) =~= before_keys.push(c));
                before_keys.lemma_push_to_set_commute(c);
                assert(copy == node);
                lemma_inserted_all_push(g0, before_out, node);
                assert(out@ =~= before_out.push(node));
                let f = |n: Node| (match n.kind {
                    NodeKind::Contract(k) => k,
                    _ => ContractKind::Test,
                }, n.qualified_path@);
                assert(out@.map_values(f) =~= before_out.map_values(f).push(c));
                assert(want =~= out@.map_values(f) + to_synthesize(key_views(known@).to_set(), contract_refs@.skip(q + 1)));
                assert forall|j: int| 0 <= j < out@.len() implies is_contract_node(project_id@, #[trigger] want[j], out@[j]) by {
                    if j < before_out.len() {
                        assert(out@[j] == before_out[j]);
                    } else {
                        assert(want[j] == out@.map_values(f)[j]);
                    }
                }
            }
        }
        q = q + 1;
    }
    proof {
        assert(contract_refs@.skip(contract_refs@.len() as int) =~= Seq::<ContractRef>::empty());
        let f = |n: Node| (match n.kind {
            NodeKind::Contract(k) => k,
            _ => ContractKind::Test,
        }, n.qualified_path@);
        assert(want =~= out@.map_values(f));
    }
    out
}

// ---------------------------------------------------------------------------------------
// Event wiring
// ---------------------------------------------------------------------------------------
/// `n` is the event contract named `p`.
pub open spec fn names_event(n: Node, p: Seq<char>) -> bool {
    n.kind == NodeKind::Contract(ContractKind::Event) && n.qualified_path@ == p
}

/// The names of the event contracts among `nodes`.
pub open spec fn event_names(nodes: Seq<Node>) -> Set<Seq<char>> {
    Set::new(|p: Seq<char>| exists|i: int| 0 <= i < nodes.len() && #[trigger] names_event(nodes[i], p))
}

/// Edge `e` is a `kind` edge into the event named `p`.
pub open spec fn wires(nodes: Seq<Node>, e: Edge, p: Seq<char>, kind: EdgeKind) -> bool {
    e.kind == kind && has_id(nodes, e.to.0@) && names_event(node_of(nodes, e.to.0@), p)
}

/// Some edge is a `kind` edge into the event named `p`.
pub open spec fn wired(nodes: Seq<Node>, edges: Seq<Edge>, p: Seq<char>, kind: EdgeKind) -> bool {
    exists|k: int| 0 <= k < edges.len() && #[trigger] wires(nodes, edges[k], p, kind)
}

/// The edge kind of a producing (`true`) or consuming (`false`) side.
pub open spec fn side(prod: bool) -> EdgeKind {
    if prod {
        EdgeKind::Produces
    } else {
        EdgeKind::Consumes
    }
}

/// Some hit names event `p` on the side `pd`.
pub open spec fn has_hit(hits: Seq<(Vec<char>, bool)>, p: Seq<char>, pd: bool) -> bool {
    exists|h: int| 0 <= h < hits.len() && #[trigger] hits[h].0@ == p && hits[h].1 == pd
}

/// One of the first `k` edges wires side `pd` of event `p`.
pub open spec fn wired_before(g: Seq<Node>, edges: Seq<Edge>, k: int, p: Seq<char>, pd: bool) -> bool {
    exists|j: int| 0 <= j < k && #[trigger] wires(g, edges[j], p, side(pd))
}

pub open spec fn wiring_views(v: Seq<(String, bool, bool)>) -> Seq<(Seq<char>, bool, bool)> {
    v.map_values(|w: (String, bool, bool)| (w.0@, w.1, w.2))
}

pub open spec fn wiring_names(v: Seq<(String, bool, bool)>) -> Seq<Seq<char>> {
    v.map_values(|w: (String, bool, bool)| w.0@)
}

/// Whether each event contract of `graph` has at least one `Produces` and at least one
/// `Consumes` edge among `edges`, by event name, in name order. `edges` is passed
/// separately because the graph loaded from the cache may still carry the previous run's
/// edges; an event with neither side is listed too, as `(false, false)`.
pub fn event_wiring(graph: &SymbolGraph, edges: &[Edge]) -> (r: Vec<(String, bool, bool)>)
    ensures
        strictly_sorted(wiring_names(r@)),
        wiring_names(r@).to_set() == event_names(graph.nodes_seq()),
        forall|i: int| 0 <= i < r@.len() ==> #[trigger] r@[i].1 == wired(graph.nodes_seq(), edges@, r@[i].0@, EdgeKind::Produces)
            && r@[i].2 == wired(graph.nodes_seq(), edges@, r@[i].0@, EdgeKind::Consumes),
{
    let nodes = graph.nodes();
    let ghost g = graph.nodes_seq();
    let mut names: Vec<Vec<char>> = Vec::new();
    let mut i: usize = 0;
    proof {
        assert(char_views(names@).to_set() =~= Set::<Seq<char>>::empty());
    }
    while i < nodes.len()
        invariant
            i <= g.len(),
            nodes@ == g,
            strictly_sorted(char_views(names@)),
            forall|p: Seq<char>| char_views(names@).to_set().contains(p) <==> exists|j: int| 0 <= j < i && #[trigger] names_event(g[j], p),
        decreases g.len() - i,
    {
        let ghost before = char_views(names@).to_set();
        let is_event = match nodes[i].kind {
            NodeKind::Contract(ContractKind::Event) => true,
            _ => false,
        };
        if is_event {
            insert_sorted(&mut names, chars_of(nodes[i].qualified_path.as_str()));
        }
        proof {
            assert forall|p: Seq<char>| char_views(names@).to_set().contains(p) <==> exists|j: int| 0 <= j < i + 1 && #[trigger] names_event(g[j], p) by {
                if exists|j: int| 0 <= j < i + 1 && #[trigger] names_event(g[j], p) {
                    let j = choose|j: int| 0 <= j < i + 1 && #[trigger] names_event(g[j], p);
                    if j < i {
                        assert(before.contains(p));
                    }
                }
                if before.contains(p) {
                    let j = choose|j: int| 0 <= j < i && #[trigger] names_event(g[j], p);
                    assert(names_event(g[j], p));
                }
                if is_event && p == g[i as int].qualified_path@ {
                    assert(names_event(g[i as int], p));
                }
            }
        }
        i = i + 1;
    }
    // Every Produces/Consumes edge into an event, as (event name, is it Produces).
    let mut hits: Vec<(Vec<char>, bool)> = Vec::new();
    let mut k: usize = 0;
    proof {
        assert forall|p: Seq<char>, pd: bool| #[trigger] has_hit(hits@, p, pd) <==> wired_before(g, edges@, 0, p, pd) by {}
    }
    while k < edges.len()
        invariant
            k <= edges@.len(),
            g == graph.nodes_seq(),
            forall|p: Seq<char>, pd: bool| #[trigger] has_hit(hits@, p, pd) <==> wired_before(g, edges@, k as int, p, pd),
        decreases edges@.len() - k,
    {
        let e = &edges[k];
        let prod = match e.kind {
            EdgeKind::Produces => Some(true),
            EdgeKind::Consumes => Some(false),
            _ => None,
        };
        let ghost before = hits@;
        let mut hit: Option<(Vec<char>, bool)> = None;
        if let Some(pr) = prod {
            match lookup_node(graph, &e.to.0) {
                Some(n) => {
                    let is_event = match n.kind {
                        NodeKind::Contract(ContractKind::Event) => true,
                        _ => false,
                    };
                    if is_event {
                        hit = Some((chars_of(n.qualified_path.as_str()), pr));
                    }
                },
                None => {},
            }
        }
        match hit {
            Some(h) => {
                hits.push(h);
            },
            None => {},
        }
        proof {
            assert forall|p: Seq<char>, pd: bool| #[trigger] has_hit(hits@, p, pd) <==> wired_before(g, edges@, k + 1, p, pd) by {
                if has_hit(hits@, p, pd) {
                    let h = choose|h: int| 0 <= h < hits@.len() && #[trigger] hits@[h].0@ == p && hits@[h].1 == pd;
                    if h < before.len() {
                        assert(before[h] == hits@[h]);
                        assert(has_hit(before, p, pd));
                        assert(wired_before(g, edges@, k as int, p, pd));
                        let j = choose|j: int| 0 <= j < k && #[trigger] wires(g, edges@[j], p, side(pd));
                        assert(wires(g, edges@[j], p, side(pd)));
                    } else {
                        assert(wires(g, edges@[k as int], p, side(pd)));
                    }
                }
                if wired_before(g, edges@, k + 1, p, pd) {
                    let j = choose|j: int| 0 <= j < k + 1 && #[trigger] wires(g, edges@[j], p, side(pd));
                    if j < k {
                        assert(wired_before(g, edges@, k as int, p, pd));
                        assert(has_hit(before, p, pd));
                        let h = choose|h: int| 0 <= h < before.len() && #[trigger] before[h].0@ == p && before[h].1 == pd;
                        assert(hits@[h] == before[h]);
                    } else {
                        assert(hits@[before.len() as int].0@ == p && hits@[before.len() as int].1 == pd);
                    }
                }
            }
        }
        k = k + 1;
    }
    let mut r: Vec<(String, bool, bool)> = Vec::new();
    let mut q: usize = 0;
    while q < names.len()
        invariant
            q <= names@.len(),
            g == graph.nodes_seq(),
            r@.len() == q,
            forall|j: int| #![trigger r@[j]] 0 <= j < q ==> r@[j].0@ == names@[j]@ && r@[j].1 == wired(g, edges@, names@[j]@, EdgeKind::Produces)
                && r@[j].2 == wired(g, edges@, names@[j]@, EdgeKind::Consumes),
            forall|p: Seq<char>, pd: bool| #[trigger] has_hit(hits@, p, pd) <==> wired_before(g, edges@, edges@.len() as int, p, pd),
        decreases names@.len() - q,
    {
        let name = &names[q];
        let mut produced = false;
        let mut consumed = false;
        let mut h: usize = 0;
        while h < hits.len()
            invariant
                h <= hits@.len(),
                produced <==> exists|x: int| 0 <= x < h && #[trigger] hits@[x].0@ == name@ && hits@[x].1 == true,
                consumed <==> exists|x: int| 0 <= x < h && #[trigger] hits@[x].0@ == name@ && hits@[x].1 == false,
            decreases hits@.len() - h,
        {
            if chars_eq(hits[h].0.as_slice(), name.as_slice()) {
                if hits[h].1 {
                    produced = true;
                } else {
                    consumed = true;
                }
            }
            h = h + 1;
        }
        proof {
            assert(produced == has_hit(hits@, name@, true));
            assert(consumed == has_hit(hits@, name@, false));
            assert(wired_before(g, edges@, edges@.len() as int, name@, true) == wired(g, edges@, name@, EdgeKind::Produces));
            assert(wired_before(g, edges@, edges@.len() as int, name@, false) == wired(g, edges@, name@, EdgeKind::Consumes));
            assert(has_hit(hits@, name@, true) == wired_before(g, edges@, edges@.len() as int, name@, true));
            assert(has_hit(hits@, name@, false) == wired_before(g, edges@, edges@.len() as int, name@, false));
            assert(produced == wired(g, edges@, name@, EdgeKind::Produces));
            assert(consumed == wired(g, edges@, name@, EdgeKind::Consumes));
        }
        let ghost before_r = r@;
        r.push((string_of(name.as_slice()), produced, consumed));
        proof {
            assert forall|j: int| #![trigger r@[j]] 0 <= j < q + 1 implies r@[j].0@ == names@[j]@ && r@[j].1 == wired(g, edges@, names@[j]@, EdgeKind::Produces)
                && r@[j].2 == wired(g, edges@, names@[j]@, EdgeKind::Consumes) by {
                if j < q {
                    assert(r@[j] == before_r[j]);
                    assert(before_r[j].0@ == names@[j]@);
                } else {
                    assert(r@[j].0@ == name@);
                    assert(r@[j].1 == produced);
                    assert(r@[j].2 == consumed);
                }
            }
        }
        q = q + 1;
    }
    proof {
        assert(wiring_names(r@) =~= char_views(names@));
        assert(char_views(names@).to_set() =~= event_names(g));
    }
    r
}

/// Looks a node up by the text of its id.
fn lookup_node<'a>(graph: &'a SymbolGraph, id: &String) -> (r: Option<&'a Node>)
    ensures
        match r {
            Some(n) => has_id(graph.nodes_seq(), id@) && *n == node_of(graph.nodes_seq(), id@),
            None => !has_id(graph.nodes_seq(), id@),
        },
{
    let key = NodeId(id.clone());
    let r = graph.node(&key);
    proof {
        use_type_invariant(graph);
        graph.lemma_inv();
        if let Some(n) = r {
            let g = graph.nodes_seq();
            let i = choose|i: int| 0 <= i < g.len() && g[i] == *n && n.id.0@ == id@;
            let j = choose|j: int| 0 <= j < g.len() && g[j].id.0@ == id@;
            assert(g[i].id.0@ == id@);
            assert(i == j);
        }
    }
    r
}

/// What a wiring table says of event `p`: its first entry's sides, or neither side if it
/// has none.
pub open spec fn wiring_of(table: Seq<(Seq<char>, bool, bool)>, p: Seq<char>) -> (bool, bool)
    decreases table.len(),
{
    if table.len() == 0 {
        (false, false)
    } else if table[0].0 == p {
        (table[0].1, table[0].2)
    } else {
        wiring_of(table.skip(1), p)
    }
}

/// The events of `before` that had both sides and lack one in `after`, in the order of
/// `before`, each with the side(s) it lost.
pub open spec fn orphaned(before: Seq<(Seq<char>, bool, bool)>, after: Seq<(Seq<char>, bool, bool)>) -> Seq<(Seq<char>, bool, bool)>
    decreases before.len(),
{
    if before.len() == 0 {
        Seq::empty()
    } else {
        let r = orphaned(before.drop_last(), after);
        let e = before.last();
        let now = wiring_of(after, e.0);
        if e.1 && e.2 && !(now.0 && now.1) {
            r.push((e.0, !now.0, !now.1))
        } else {
            r
        }
    }
}

pub open spec fn orphan_views(v: Seq<OrphanedEvent>) -> Seq<(Seq<char>, bool, bool)> {
    v.map_values(|o: OrphanedEvent| (o.event@, o.lost_producer, o.lost_consumer))
}

fn wiring_lookup(after: &Vec<(String, bool, bool)>, p: &String) -> (r: (bool, bool))
    ensures
        r == wiring_of(wiring_views(after@), p@),
{
    let ghost a = wiring_views(after@);
    let mut i: usize = 0;
    proof {
        assert(a.skip(0) =~= a);
    }
    while i < after.len()
        invariant
            i <= after@.len(),
            a == wiring_views(after@),
            wiring_of(a, p@) == wiring_of(a.skip(i as int), p@),
        decreases after@.len() - i,
    {
        proof {
            assert(a.skip(i as int)[0] == a[i as int]);
            assert(a.skip(i as int).skip(1) =~= a.skip(i + 1));
        }
        if str_eq(after[i].0.as_str(), p.as_str()) {
            return (after[i].1, after[i].2);
        }
        i = i + 1;
    }
    (false, false)
}

/// Diffs two wiring tables (each as `event_wiring` gives it): an event that had both a
/// producer and a consumer `before` and misses one `after` is reported with the side it
/// lost; one absent from `after` altogether lost both. In name order.
pub fn event_diff(before: &Vec<(String, bool, bool)>, after: &Vec<(String, bool, bool)>) -> (r: Vec<OrphanedEvent>)
    requires
        strictly_sorted(wiring_names(before@)),
    ensures
        orphan_views(r@) == orphaned(wiring_views(before@), wiring_views(after@)),
        strictly_sorted(orphan_views(r@).map_values(|o: (Seq<char>, bool, bool)| o.0)),
{
    let ghost b = wiring_views(before@);
    let ghost a = wiring_views(after@);
    let mut r: Vec<OrphanedEvent> = Vec::new();
    let mut i: usize = 0;
    proof {
        assert(orphan_views(r@) =~= orphaned(b.take(0), a));
    }
    while i < before.len()
        invariant
            i <= before@.len(),
            b == wiring_views(before@),
            a == wiring_views(after@),
            strictly_sorted(wiring_names(before@)),
            orphan_views(r@) == orphaned(b.take(i as int), a),
            forall|x: int| 0 <= x < r@.len() ==> exists|y: int| 0 <= y < i && #[trigger] before@[y].0@ == (#[trigger] r@[x]).event@,
            strictly_sorted(orphan_views(r@).map_values(|o: (Seq<char>, bool, bool)| o.0)),
        decreases before@.len() - i,
    {
        proof {
            assert(b.take(i + 1).drop_last() =~= b.take(i as int));
            assert(b.take(i + 1).last() == b[i as int]);
        }
        let e = &before[i];
        let now = wiring_lookup(after, &e.0);
        let ghost old_r = r@;
        if e.1 && e.2 && !(now.0 && now.1) {
            r.push(OrphanedEvent { event: e.0.clone(), lost_producer: !now.0, lost_consumer: !now.1 });
            proof {
                assert(orphan_views(r@) =~= orphan_views(old_r).push((e.0@, !now.0, !now.1)));
                let ns = orphan_views(r@).map_values(|o: (Seq<char>, bool, bool)| o.0);
                let os = orphan_views(old_r).map_values(|o: (Seq<char>, bool, bool)| o.0);
                assert forall|x: int, y: int| 0 <= x < y < ns.len() implies lex_lt(#[trigger] ns[x], #[trigger] ns[y]) by {
                    if y < os.len() {
                        assert(ns[x] == os[x] && ns[y] == os[y]);
                    } else {
                        let z = choose|z: int| 0 <= z < i && #[trigger] before@[z].0@ == (#[trigger] old_r[x]).event@;
                        assert(wiring_names(before@)[z] == before@[z].0@);
                        assert(wiring_names(before@)[i as int] == e.0@);
                        assert(ns[x] == old_r[x].event@);
                    }
                }
                assert forall|x: int| 0 <= x < r@.len() implies exists|y: int| 0 <= y < i + 1 && #[trigger] before@[y].0@ == (#[trigger] r@[x]).event@ by {
                    if x < old_r.len() {
                        assert(r@[x] == old_r[x]);
                        let z = choose|z: int| 0 <= z < i && #[trigger] before@[z].0@ == (#[trigger] old_r[x]).event@;
                        assert(before@[z].0@ == r@[x].event@);
                    } else {
                        assert(before@[i as int].0@ == r@[x].event@);
                    }
                }
            }
        }
        i = i + 1;
    }
    proof {
        assert(b.take(before@.len() as int) =~= b);
    }
    r
}

} // verus!
