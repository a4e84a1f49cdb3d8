//! The language-agnostic symbol graph a project indexes into.
use vstd::hash_map::StringHashMap;
use vstd::prelude::*;

use crate::text::{chars_of, string_of};

verus! {

#[derive(Debug, Clone, Copy, PartialEq, Eq, Hash, Structural)]
pub enum ContractKind {
    ApiRoute,
    Event,
    Table,
    Test,
}

#[derive(Debug, Clone, Copy, PartialEq, Eq, Hash, Structural)]
pub enum NodeKind {
    Module,
    Type,
    Function,
    Field,
    Trait,
    Contract(ContractKind),
}

/// A node's stable identity.
#[derive(Debug, Clone, Hash, PartialEq, Eq, PartialOrd, Ord)]
pub struct NodeId(pub String);

/// The `Debug` rendering of a contract kind (`ApiRoute`, `Event`, ...).
pub open spec fn contract_kind_name(k: ContractKind) -> Seq<char> {
    match k {
        ContractKind::ApiRoute => "ApiRoute"@,
        ContractKind::Event => "Event"@,
        ContractKind::Table => "Table"@,
        ContractKind::Test => "Test"@,
    }
}

/// The `Debug` rendering of a node kind (`Function`, `Contract(Event)`, ...).
pub open spec fn node_kind_name(k: NodeKind) -> Seq<char> {
    match k {
        NodeKind::Module => "Module"@,
        NodeKind::Type => "Type"@,
        NodeKind::Function => "Function"@,
        NodeKind::Field => "Field"@,
        NodeKind::Trait => "Trait"@,
        NodeKind::Contract(c) => "Contract("@ + contract_kind_name(c) + ")"@,
    }
}

/// What `NodeId::new` hashes: project, path and kind, separated by NUL characters.
pub open spec fn node_id_seed(project_id: Seq<char>, qualified_path: Seq<char>, kind: NodeKind) -> Seq<char> {
    project_id + seq!['\0'] + qualified_path + seq!['\0'] + node_kind_name(kind)
}

/// The lowercase hexadecimal BLAKE3 digest of `data`.
pub uninterp spec fn blake3_hex(data: Seq<u8>) -> Seq<char>;

/// `blake3::hash(data).to_hex()`: the 32-byte BLAKE3 digest of `data`, written as 64
/// lowercase hexadecimal characters. The digest itself is named, not computed here.
#[verifier::external_body]
pub(crate) fn blake3_hex_digest(data: &[u8]) -> (hex: String)
    ensures
        hex@ == blake3_hex(data@),
        hex@.len() == 64,
{
    blake3::hash(data).to_hex().to_string()
}

pub fn contract_kind_debug(k: ContractKind) -> (s: &'static str)
    ensures
        s@ == contract_kind_name(k),
{
    match k {
        ContractKind::ApiRoute => "ApiRoute",
        ContractKind::Event => "Event",
        ContractKind::Table => "Table",
        ContractKind::Test => "Test",
    }
}

pub fn node_kind_debug(k: NodeKind) -> (s: Vec<char>)
    ensures
        s@ == node_kind_name(k),
{
    match k {
        NodeKind::Module => chars_of("Module"),
        NodeKind::Type => chars_of("Type"),
        NodeKind::Function => chars_of("Function"),
        NodeKind::Field => chars_of("Field"),
        NodeKind::Trait => chars_of("Trait"),
        NodeKind::Contract(c) => {
            let mut v = chars_of("Contract(");
            let mut w = chars_of(contract_kind_debug(c));
            let mut z = chars_of(")");
            v.append(&mut w);
            v.append(&mut z);
            v
        },
    }
}

impl NodeId {
    /// Stable id derived from where a symbol lives, not where it's stored — the same
    /// symbol re-indexed from an unchanged file always gets the same id.
    pub fn new(project_id: &str, qualified_path: &str, kind: NodeKind) -> (id: NodeId)
        ensures
            id.0@ == blake3_hex(
                vstd::utf8::encode_utf8(node_id_seed(project_id@, qualified_path@, kind)),
            ),
    {
        let mut seed = chars_of(project_id);
        seed.push('\0');
        let mut q = chars_of(qualified_path);
        seed.append(&mut q);
        seed.push('\0');
        let mut k = node_kind_debug(kind);
        seed.append(&mut k);
        assert(seed@ =~= node_id_seed(project_id@, qualified_path@, kind));
        let s = string_of(seed.as_slice());
        let bytes = s.as_str().as_bytes();
        NodeId(blake3_hex_digest(bytes))
    }

    /// The id as text (what `Display` writes).
    pub fn as_text(&self) -> (s: String)
        ensures
            s@ == self.0@,
    {
        self.0.clone()
    }
}

#[derive(Debug, Clone)]
pub struct Node {
    pub id: NodeId,
    pub kind: NodeKind,
    pub qualified_path: String,
    pub file: String,
    pub line: usize,
    /// The last line of this symbol's own span (1-indexed, inclusive).
    pub end_line: usize,
    pub language: String,
    /// Whether this `Function` node is a test. Drives the TESTS section of a report.
    pub is_test: bool,
    /// Declared in a file the adapter recognized as tool-generated.
    pub is_generated: bool,
    /// The module's default export (a default import binds to it whatever it's called).
    pub is_default_export: bool,
}

#[derive(Debug, Clone, Copy, PartialEq, Eq, Hash, Structural)]
pub enum EdgeKind {
    Calls,
    References,
    Implements,
    Contains,
    Imports,
    Produces,
    Consumes,
    Reads,
    Writes,
}

#[derive(Debug, Clone, Copy, PartialEq, Eq, Hash, Structural)]
pub enum Confidence {
    Exact,
    Probable,
    Heuristic,
}

/// Ordinal strength of a tier: `Exact` strongest, `Heuristic` weakest.
pub open spec fn rank(c: Confidence) -> nat {
    match c {
        Confidence::Heuristic => 0,
        Confidence::Probable => 1,
        Confidence::Exact => 2,
    }
}

/// The weaker of two tiers.
pub open spec fn weaker_of(a: Confidence, b: Confidence) -> Confidence {
    if rank(a) <= rank(b) {
        a
    } else {
        b
    }
}

impl Confidence {
    fn ordinal(self) -> (r: u8)
        ensures
            r as nat == rank(self),
    {
        match self {
            Confidence::Heuristic => 0,
            Confidence::Probable => 1,
            Confidence::Exact => 2,
        }
    }

    /// The weaker (less certain) of two confidence tiers — a multi-hop chain is only as
    /// trustworthy as its weakest hop.
    pub fn weaker(self, other: Confidence) -> (r: Confidence)
        ensures
            r == weaker_of(self, other),
    {
        if self.ordinal() <= other.ordinal() {
            self
        } else {
            other
        }
    }

    /// Whether this tier meets or exceeds `min` in certainty.
    pub fn at_least(self, min: Confidence) -> (r: bool)
        ensures
            r == (rank(self) >= rank(min)),
    {
        self.ordinal() >= min.ordinal()
    }
}

/// `weaker` is commutative, associative and idempotent, `Exact` is its identity and
/// `Heuristic` absorbs everything: folding a chain's hops down to their weakest link
/// doesn't depend on the order the hops are folded in.
pub proof fn law_weaker_is_a_meet(a: Confidence, b: Confidence, c: Confidence)
    ensures
        weaker_of(a, b) == weaker_of(b, a),
        weaker_of(weaker_of(a, b), c) == weaker_of(a, weaker_of(b, c)),
        weaker_of(a, a) == a,
        weaker_of(a, Confidence::Exact) == a,
        weaker_of(a, Confidence::Heuristic) == Confidence::Heuristic,
        rank(weaker_of(a, b)) <= rank(a),
        rank(weaker_of(a, b)) <= rank(b),
{
}

/// A chain meets a minimum tier exactly when every hop does; `at_least` is a total
/// preorder (reflexive, transitive, total).
pub proof fn law_at_least_of_weaker(a: Confidence, b: Confidence, m: Confidence, n: Confidence)
    ensures
        rank(weaker_of(a, b)) >= rank(m) <==> (rank(a) >= rank(m) && rank(b) >= rank(m)),
        rank(a) >= rank(a),
        rank(a) >= rank(m) && rank(m) >= rank(n) ==> rank(a) >= rank(n),
        rank(a) >= rank(m) || rank(m) >= rank(a),
        rank(a) == rank(b) ==> a == b,
{
}

#[derive(Debug, Clone)]
pub struct Edge {
    pub from: NodeId,
    pub to: NodeId,
    pub kind: EdgeKind,
    pub confidence: Confidence,
}

/// No two nodes share an id.
pub open spec fn ids_unique(nodes: Seq<Node>) -> bool {
    forall|i: int, j: int|
        0 <= i < nodes.len() && 0 <= j < nodes.len() && i != j ==> nodes[i].id.0@
            != nodes[j].id.0@
}

/// Index of the node whose id is `id`, if any.
pub open spec fn has_id(nodes: Seq<Node>, id: Seq<char>) -> bool {
    exists|i: int| 0 <= i < nodes.len() && nodes[i].id.0@ == id
}

/// The node list after inserting `node`: replaces the node with the same id in place,
/// or appends it.
pub open spec fn inserted(nodes: Seq<Node>, node: Node) -> Seq<Node> {
    if has_id(nodes, node.id.0@) {
        let i = choose|i: int| 0 <= i < nodes.len() && nodes[i].id.0@ == node.id.0@;
        nodes.update(i, node)
    } else {
        nodes.push(node)
    }
}

/// The language-agnostic symbol graph a project indexes into: nodes keyed by id (a later
/// node with the same id replaces the earlier one) and the edges between them.
pub struct SymbolGraph {
    nodes: Vec<Node>,
    edges: Vec<Edge>,
    index: StringHashMap<usize>,
}

impl SymbolGraph {
    #[verifier::type_invariant]
    pub closed spec fn inv(&self) -> bool {
        &&& ids_unique(self.nodes@)
        &&& forall|k: Seq<char>| #[trigger]
            self.index@.contains_key(k) <==> has_id(self.nodes@, k)
        &&& forall|k: Seq<char>| #[trigger]
            self.index@.contains_key(k) ==> self.index@[k] < self.nodes@.len()
                && self.nodes@[self.index@[k] as int].id.0@ == k
    }

    /// The nodes, in insertion order.
    pub closed spec fn nodes_seq(&self) -> Seq<Node> {
        self.nodes@
    }

    /// The edges, in insertion order.
    pub closed spec fn edges_seq(&self) -> Seq<Edge> {
        self.edges@
    }

    /// What the invariant promises about the nodes.
    pub proof fn lemma_inv(&self)
        requires
            self.inv(),
        ensures
            ids_unique(self.nodes_seq()),
    {
    }

    pub fn new() -> (g: SymbolGraph)
        ensures
            g.nodes_seq() == Seq::<Node>::empty(),
            g.edges_seq() == Seq::<Edge>::empty(),
    {
        let g = SymbolGraph { nodes: Vec::new(), edges: Vec::new(), index: StringHashMap::new() };
        assert forall|k: Seq<char>| #[trigger] g.index@.contains_key(k) <==> has_id(g.nodes@, k) by {}
        g
    }

    pub fn insert_node(&mut self, node: Node)
        ensures
            final(self).nodes_seq() == inserted(old(self).nodes_seq(), node),
            final(self).edges_seq() == old(self).edges_seq(),
    {
        proof {
            use_type_invariant(&*self);
        }
        let mut g = SymbolGraph::new();
        std::mem::swap(&mut g, self);
        proof {
            use_type_invariant(&g);
        }
        let SymbolGraph { mut nodes, edges, mut index } = g;
        let ghost old_nodes = nodes@;
        let key = node.id.0.clone();
        match index.get(key.as_str()) {
            Some(ip) => {
                let i = *ip;
                proof {
                    assert(has_id(old_nodes, node.id.0@));
                    let j = choose|j: int| 0 <= j < old_nodes.len() && old_nodes[j].id.0@ == node.id.0@;
                    assert(j == i as int);
                }
                nodes.set(i, node);
                proof {
                    assert forall|k: Seq<char>| #[trigger] index@.contains_key(k) <==> has_id(nodes@, k) by {
                        if has_id(old_nodes, k) {
                            let w = choose|w: int| 0 <= w < old_nodes.len() && old_nodes[w].id.0@ == k;
                            assert(nodes@[w].id.0@ == k);
                        }
                        if has_id(nodes@, k) {
                            let w = choose|w: int| 0 <= w < nodes@.len() && nodes@[w].id.0@ == k;
                            assert(old_nodes[w].id.0@ == k);
                        }
                    }
                }
            },
            None => {
                let n = nodes.len();
                proof {
                    assert(!has_id(old_nodes, node.id.0@));
                }
                nodes.push(node);
                index.insert(key, n);
                proof {
                    assert forall|k: Seq<char>| #[trigger] index@.contains_key(k) <==> has_id(nodes@, k) by {
                        if has_id(old_nodes, k) {
                            let w = choose|w: int| 0 <= w < old_nodes.len() && old_nodes[w].id.0@ == k;
                            assert(nodes@[w].id.0@ == k);
                        }
                        if has_id(nodes@, k) && k != nodes@[n as int].id.0@ {
                            let w = choose|w: int| 0 <= w < nodes@.len() && nodes@[w].id.0@ == k;
                            assert(old_nodes[w].id.0@ == k);
                        }
                    }
                }
            },
        }
        *self = SymbolGraph { nodes, edges, index };
    }

    pub fn insert_edge(&mut self, edge: Edge)
        ensures
            final(self).nodes_seq() == old(self).nodes_seq(),
            final(self).edges_seq() == old(self).edges_seq().push(edge),
    {
        proof {
            use_type_invariant(&*self);
        }
        let mut g = SymbolGraph::new();
        std::mem::swap(&mut g, self);
        proof {
            use_type_invariant(&g);
        }
        let SymbolGraph { nodes, mut edges, index } = g;
        edges.push(edge);
        *self = SymbolGraph { nodes, edges, index };
    }

    /// The position of the node whose id is `id`.
    pub fn position(&self, id: &NodeId) -> (r: Option<usize>)
        ensures
            match r {
                Some(i) => i < self.nodes_seq().len() && self.nodes_seq()[i as int].id.0@ == id.0@,
                None => !has_id(self.nodes_seq(), id.0@),
            },
    {
        proof {
            use_type_invariant(self);
        }
        match self.index.get(id.0.as_str()) {
            Some(ip) => Some(*ip),
            None => None,
        }
    }

    pub fn node(&self, id: &NodeId) -> (r: Option<&Node>)
        ensures
            match r {
                Some(n) => exists|i: int|
                    0 <= i < self.nodes_seq().len() && self.nodes_seq()[i] == *n && n.id.0@ == id.0@,
                None => !has_id(self.nodes_seq(), id.0@),
            },
    {
        match self.position(id) {
            Some(i) => Some(&self.nodes[i]),
            None => None,
        }
    }

    /// Every node, in insertion order.
    pub fn nodes(&self) -> (r: &[Node])
        ensures
            r@ == self.nodes_seq(),
    {
        self.nodes.as_slice()
    }

    pub fn edges(&self) -> (r: &[Edge])
        ensures
            r@ == self.edges_seq(),
    {
        self.edges.as_slice()
    }

    pub fn node_count(&self) -> (n: usize)
        ensures
            n == self.nodes_seq().len(),
    {
        self.nodes.len()
    }

    pub fn is_empty(&self) -> (b: bool)
        ensures
            b == (self.nodes_seq().len() == 0),
    {
        self.nodes.len() == 0
    }
}

/// Inserting a node makes it findable by its id and leaves every other node in place;
/// the id set only ever grows.
pub proof fn law_insert_then_find(nodes: Seq<Node>, node: Node, other: Seq<char>)
    requires
        ids_unique(nodes),
    ensures
        ids_unique(inserted(nodes, node)),
        has_id(inserted(nodes, node), node.id.0@),
        has_id(nodes, other) ==> has_id(inserted(nodes, node), other),
        other != node.id.0@ ==> (has_id(inserted(nodes, node), other) <==> has_id(nodes, other)),
        forall|i: int|
            0 <= i < nodes.len() && nodes[i].id.0@ != node.id.0@ ==> inserted(nodes, node)[i]
                == nodes[i],
{
    let r = inserted(nodes, node);
    if has_id(nodes, node.id.0@) {
        let i = choose|i: int| 0 <= i < nodes.len() && nodes[i].id.0@ == node.id.0@;
        assert(r[i].id.0@ == node.id.0@);
        if has_id(nodes, other) {
            let w = choose|w: int| 0 <= w < nodes.len() && nodes[w].id.0@ == other;
            if w != i {
                assert(r[w].id.0@ == other);
            } else {
                assert(r[i].id.0@ == other);
            }
        }
        if other != node.id.0@ && has_id(r, other) {
            let w = choose|w: int| 0 <= w < r.len() && r[w].id.0@ == other;
            assert(nodes[w].id.0@ == other);
        }
    } else {
        assert(r[nodes.len() as int].id.0@ == node.id.0@);
        if has_id(nodes, other) {
            let w = choose|w: int| 0 <= w < nodes.len() && nodes[w].id.0@ == other;
            assert(r[w].id.0@ == other);
        }
        if other != node.id.0@ && has_id(r, other) {
            let w = choose|w: int| 0 <= w < r.len() && r[w].id.0@ == other;
            assert(nodes[w].id.0@ == other);
        }
    }
}

} // verus!
