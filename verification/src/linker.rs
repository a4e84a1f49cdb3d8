//! Resolving adapter-emitted names into graph nodes, and references into edges.
use vstd::hash_map::StringHashMap;
use vstd::prelude::*;

use crate::adapter::{RefDecl, RefTarget, RefTargetView};
use crate::graph::{rank, weaker_of, Confidence, Node, NodeId, NodeKind, SymbolGraph};
use crate::indices::{
    as_ints, last_match, lemma_as_ints_push, lemma_last_match, lemma_select, lemma_select_empty,
    select,
};
use crate::text::{
    chars_eq, chars_of, join_path, join_sep, lemma_split_sep_nonempty, lemma_vviews_push,
    slice_chars, split_path, split_sep, string_of, vviews,
};

verus! {

// ---------------------------------------------------------------------------------------
// What a name resolves to
// ---------------------------------------------------------------------------------------
/// The qualified path of node `i`.
pub open spec fn qp(g: Seq<Node>, i: int) -> Seq<char> {
    g[i].qualified_path@
}

/// Node `i` takes part in name resolution: the scope admits it and it isn't a `Module`.
pub open spec fn eligible(g: Seq<Node>, a: Seq<bool>, i: int) -> bool {
    a[i] && g[i].kind != NodeKind::Module
}

/// The last `::` segment of a path.
pub open spec fn short_name(p: Seq<char>) -> Seq<char> {
    split_sep(p).last()
}

/// The last two `::` segments of a path, rejoined (`PaymentStatus::Failed`).
pub open spec fn last_two(p: Seq<char>) -> Seq<char> {
    let s = split_sep(p);
    join_sep(s.subrange(s.len() - 2, s.len() as int))
}

pub open spec fn has_last_two(p: Seq<char>) -> bool {
    split_sep(p).len() >= 2
}

pub open spec fn by_path(g: Seq<Node>, a: Seq<bool>, name: Seq<char>) -> spec_fn(int) -> bool {
    |i: int| eligible(g, a, i) && qp(g, i) == name
}

pub open spec fn by_last_two(g: Seq<Node>, a: Seq<bool>, name: Seq<char>) -> spec_fn(int) -> bool {
    |i: int| eligible(g, a, i) && has_last_two(qp(g, i)) && last_two(qp(g, i)) == name
}

pub open spec fn by_short(g: Seq<Node>, a: Seq<bool>, name: Seq<char>) -> spec_fn(int) -> bool {
    |i: int| eligible(g, a, i) && short_name(qp(g, i)) == name
}

pub open spec fn last_two_family(g: Seq<Node>, a: Seq<bool>) -> spec_fn(Seq<char>) -> spec_fn(int) -> bool {
    |k: Seq<char>| by_last_two(g, a, k)
}

pub open spec fn short_family(g: Seq<Node>, a: Seq<bool>) -> spec_fn(Seq<char>) -> spec_fn(int) -> bool {
    |k: Seq<char>| by_short(g, a, k)
}

/// One match is certain; several are `many`.
pub open spec fn count_confidence(n: nat, many: Confidence) -> Confidence {
    if n == 1 {
        Confidence::Exact
    } else {
        many
    }
}

/// Tiered resolution of a name as a user would type it: the exact qualified path (the
/// last such node), else every node whose last two segments are the name, else every
/// node whose last segment is; several matches in a tier are `Heuristic`.
pub open spec fn resolve_spec(g: Seq<Node>, a: Seq<bool>, name: Seq<char>) -> Option<(Seq<int>, Confidence)> {
    match last_match(g.len(), by_path(g, a, name)) {
        Some(i) => Some((seq![i], Confidence::Exact)),
        None => {
            let lt = select(g.len(), by_last_two(g, a, name));
            if lt.len() > 0 {
                Some((lt, count_confidence(lt.len(), Confidence::Heuristic)))
            } else {
                let sn = select(g.len(), by_short(g, a, name));
                if sn.len() > 0 {
                    Some((sn, count_confidence(sn.len(), Confidence::Heuristic)))
                } else {
                    None
                }
            }
        },
    }
}

/// Whether `needle` occurs as a contiguous run inside `hay` (trivially, when empty).
pub open spec fn contains_run_spec(hay: Seq<Seq<char>>, needle: Seq<Seq<char>>) -> bool {
    needle.len() == 0 || exists|k: int|
        0 <= k && k + needle.len() <= hay.len() && #[trigger] hay.subrange(k, k + needle.len())
            == needle
}

pub open spec fn nonempty_piece() -> spec_fn(Seq<char>) -> bool {
    |s: Seq<char>| s.len() > 0
}

/// A module's non-empty segments.
pub open spec fn wanted(module: Seq<char>) -> Seq<Seq<char>> {
    split_sep(module).filter(nonempty_piece())
}

/// Whether path `p` lives under `module`: the module's segments appear, in order and
/// contiguously, among the path's segments before its last.
pub open spec fn under(p: Seq<char>, module: Seq<char>) -> bool {
    contains_run_spec(split_sep(p).drop_last(), wanted(module))
}

pub open spec fn in_module_p(g: Seq<Node>, a: Seq<bool>, module: Seq<char>, name: Seq<char>) -> spec_fn(int) -> bool {
    |i: int| eligible(g, a, i) && short_name(qp(g, i)) == name && under(qp(g, i), module)
}

pub open spec fn in_module_real_p(g: Seq<Node>, a: Seq<bool>, module: Seq<char>, name: Seq<char>) -> spec_fn(int) -> bool {
    |i: int| in_module_p(g, a, module, name)(i) && !g[i].is_generated
}

/// Every node named `name` under `module`, preferring those not marked generated when
/// there is at least one.
pub open spec fn in_module_spec(g: Seq<Node>, a: Seq<bool>, module: Seq<char>, name: Seq<char>) -> Seq<int> {
    let genuine = select(g.len(), in_module_real_p(g, a, module, name));
    if genuine.len() > 0 {
        genuine
    } else {
        select(g.len(), in_module_p(g, a, module, name))
    }
}

pub open spec fn default_export_p(g: Seq<Node>, a: Seq<bool>, module: Seq<char>) -> spec_fn(int) -> bool {
    |i: int| a[i] && g[i].is_default_export && under(qp(g, i), module)
}

/// Resolution of one call site: a module the adapter bound the name to is the evidence
/// (`Exact` for one match, `Probable` for several, nothing when the module holds no such
/// name); an empty module, or no scope evidence at all, falls back to `resolve_spec` —
/// and without evidence never better than `Probable`.
pub open spec fn resolve_ref_spec(g: Seq<Node>, a: Seq<bool>, target: RefTargetView, name: Seq<char>) -> Option<(Seq<int>, Confidence)> {
    match target {
        RefTargetView::Module(m) => {
            if m.len() == 0 {
                resolve_spec(g, a, name)
            } else {
                let ids = in_module_spec(g, a, m, name);
                if ids.len() == 0 {
                    None
                } else {
                    Some((ids, count_confidence(ids.len(), Confidence::Probable)))
                }
            }
        },
        RefTargetView::ModuleDefault(m) => {
            let ids = select(g.len(), default_export_p(g, a, m));
            if ids.len() == 0 {
                None
            } else {
                Some((ids, count_confidence(ids.len(), Confidence::Probable)))
            }
        },
        RefTargetView::Opaque => match resolve_spec(g, a, name) {
            Some((ids, c)) => Some((ids, weaker_of(c, Confidence::Probable))),
            None => None,
        },
        RefTargetView::Unscoped => resolve_spec(g, a, name),
    }
}

/// The ids of the nodes at positions `idx`.
pub open spec fn ids_at(g: Seq<Node>, idx: Seq<int>) -> Seq<Seq<char>> {
    idx.map_values(|j: int| g[j].id.0@)
}

pub open spec fn id_views(v: Seq<NodeId>) -> Seq<Seq<char>> {
    v.map_values(|x: NodeId| x.0@)
}

/// An executable resolution agrees with a specified one.
pub open spec fn same_resolution(
    r: Option<(Vec<NodeId>, Confidence)>,
    g: Seq<Node>,
    s: Option<(Seq<int>, Confidence)>,
) -> bool {
    match (r, s) {
        (Some((ids, c)), Some((idx, d))) => id_views(ids@) == ids_at(g, idx) && c == d,
        (None, None) => true,
        _ => false,
    }
}

pub open spec fn opt_pos(o: Option<usize>) -> Option<int> {
    match o {
        Some(x) => Some(x as int),
        None => None,
    }
}

/// The same, over positions.
pub open spec fn same_positions(r: Option<(Vec<usize>, Confidence)>, s: Option<(Seq<int>, Confidence)>) -> bool {
    match (r, s) {
        (Some((idx, c)), Some((jdx, d))) => as_ints(idx@) == jdx && c == d,
        (None, None) => true,
        _ => false,
    }
}

// ---------------------------------------------------------------------------------------
// Grouped index, as kept in the resolver
// ---------------------------------------------------------------------------------------
/// `keys` maps each key whose selection below `n` is non-empty to its own group, which
/// holds exactly that selection.
pub open spec fn groups_ok(
    keys: Map<Seq<char>, usize>,
    groups: Seq<Vec<usize>>,
    n: nat,
    fam: spec_fn(Seq<char>) -> spec_fn(int) -> bool,
) -> bool {
    &&& forall|k: Seq<char>| #[trigger] keys.contains_key(k) <==> select(n, fam(k)).len() > 0
    &&& forall|k: Seq<char>| #[trigger]
        keys.contains_key(k) ==> keys[k] < groups.len() && as_ints(groups[keys[k] as int]@)
            == select(n, fam(k))
    &&& forall|k1: Seq<char>, k2: Seq<char>|
        #[trigger] keys.contains_key(k1) && #[trigger] keys.contains_key(k2) && k1 != k2
            ==> keys[k1] != keys[k2]
}

pub(crate) proof fn lemma_groups_skip(
    keys: Map<Seq<char>, usize>,
    groups: Seq<Vec<usize>>,
    n: nat,
    fam: spec_fn(Seq<char>) -> spec_fn(int) -> bool,
)
    requires
        groups_ok(keys, groups, n, fam),
        forall|k: Seq<char>| !#[trigger] fam(k)(n as int),
    ensures
        groups_ok(keys, groups, n + 1, fam),
{
    assert forall|k: Seq<char>| select(n + 1, #[trigger] fam(k)) == select(n, fam(k)) by {
        assert(!fam(k)(n as int));
    }
}

pub(crate) fn add_to_group(
    keys: &mut StringHashMap<usize>,
    groups: &mut Vec<Vec<usize>>,
    key: String,
    i: usize,
    Ghost(fam): Ghost<spec_fn(Seq<char>) -> spec_fn(int) -> bool>,
)
    requires
        groups_ok(old(keys)@, old(groups)@, i as nat, fam),
        fam(key@)(i as int),
        forall|k: Seq<char>| #[trigger] fam(k)(i as int) ==> k == key@,
    ensures
        groups_ok(final(keys)@, final(groups)@, i as nat + 1, fam),
{
    let ghost n = i as nat;
    proof {
        assert forall|k: Seq<char>| k != key@ implies select(n + 1, #[trigger] fam(k)) == select(n, fam(k)) by {
            assert(!fam(k)(n as int));
        }
        assert(select(n + 1, fam(key@)) == select(n, fam(key@)).push(i as int));
    }
    match keys.get(key.as_str()) {
        Some(gp) => {
            let g = *gp;
            let ghost old_groups = groups@;
            groups[g].push(i);
            proof {
                lemma_as_ints_push(old_groups[g as int]@, i);
                assert forall|k: Seq<char>| #[trigger] keys@.contains_key(k) implies keys@[k] < groups@.len()
                    && as_ints(groups@[keys@[k] as int]@) == select(n + 1, fam(k)) by {
                    if k != key@ {
                        assert(keys@[k] != g);
                    }
                }
            }
        },
        None => {
            proof {
                lemma_select_empty(n, fam(key@));
                assert(select(n, fam(key@)) =~= Seq::<int>::empty());
            }
            let g = groups.len();
            let mut fresh: Vec<usize> = Vec::new();
            fresh.push(i);
            let ghost old_keys = keys@;
            groups.push(fresh);
            keys.insert(key, g);
            proof {
                assert(as_ints(groups@[g as int]@) =~= seq![i as int]);
                assert forall|k: Seq<char>| #[trigger] keys@.contains_key(k) implies keys@[k] < groups@.len()
                    && as_ints(groups@[keys@[k] as int]@) == select(n + 1, fam(k)) by {
                    if k != key@ {
                        assert(old_keys.contains_key(k));
                        assert(groups@[keys@[k] as int] == old(groups)@[keys@[k] as int]);
                    }
                }
                assert forall|k: Seq<char>| #[trigger] keys@.contains_key(k) <==> select(n + 1, fam(k)).len() > 0 by {
                    if k != key@ {
                        assert(old_keys.contains_key(k) <==> select(n, fam(k)).len() > 0);
                    }
                }
            }
        },
    }
}

// ---------------------------------------------------------------------------------------
// Executable helpers
// ---------------------------------------------------------------------------------------
/// Whether `needle` occurs contiguously within the first `hay_len` elements of `hay`.
fn contains_run(hay: &[Vec<char>], hay_len: usize, needle: &[Vec<char>]) -> (r: bool)
    requires
        hay_len <= hay@.len(),
    ensures
        r == contains_run_spec(vviews(hay@).take(hay_len as int), vviews(needle@)),
{
    let ghost h = vviews(hay@).take(hay_len as int);
    let ghost nd = vviews(needle@);
    if needle.len() == 0 {
        return true;
    }
    if needle.len() > hay_len {
        return false;
    }
    let mut k: usize = 0;
    while k <= hay_len - needle.len()
        invariant
            hay_len <= hay@.len(),
            0 < needle@.len() <= hay_len,
            h == vviews(hay@).take(hay_len as int),
            nd == vviews(needle@),
            forall|j: int| 0 <= j < k && j + nd.len() <= h.len() ==> #[trigger] h.subrange(j, j + nd.len()) != nd,
        decreases hay_len - k,
    {
        let mut t: usize = 0;
        let mut all = true;
        while t < needle.len()
            invariant
                k + needle@.len() <= hay_len <= hay@.len(),
                t <= needle@.len(),
                h == vviews(hay@).take(hay_len as int),
                nd == vviews(needle@),
                all == (forall|u: int| 0 <= u < t ==> h[k + u] == nd[u]),
            decreases needle@.len() - t,
        {
            let eq = chars_eq(hay[k + t].as_slice(), needle[t].as_slice());
            proof {
                assert(h[k + t] == hay@[k + t]@);
                assert(nd[t as int] == needle@[t as int]@);
            }
            all = all && eq;
            t = t + 1;
        }
        if all {
            assert(h.subrange(k as int, k + nd.len()) =~= nd);
            return true;
        }
        proof {
            if h.subrange(k as int, k + nd.len()) == nd {
                assert forall|u: int| 0 <= u < t implies h[k + u] == nd[u] by {
                    assert(h.subrange(k as int, k + nd.len())[u] == h[k + u]);
                }
            }
        }
        k = k + 1;
    }
    proof {
        assert forall|j: int| 0 <= j && j + nd.len() <= h.len() implies #[trigger] h.subrange(j, j + nd.len()) != nd by {
            assert(j < k);
        }
    }
    false
}

/// The non-empty `::` segments of a module path.
fn wanted_segments(module: &[char]) -> (w: Vec<Vec<char>>)
    ensures
        vviews(w@) == wanted(module@),
{
    let parts = split_path(module);
    let mut w: Vec<Vec<char>> = Vec::new();
    let mut i: usize = 0;
    let ghost all = vviews(parts@);
    while i < parts.len()
        invariant
            i <= parts@.len(),
            all == vviews(parts@),
            all == split_sep(module@),
            vviews(w@) == all.take(i as int).filter(nonempty_piece()),
        decreases parts@.len() - i,
    {
        proof {
            reveal(Seq::filter);
            assert(all.take(i + 1).drop_last() =~= all.take(i as int));
        }
        if parts[i].len() > 0 {
            let ghost ow = w@;
            let p = slice_chars(parts[i].as_slice(), 0, parts[i].len());
            w.push(p);
            proof {
                lemma_vviews_push(ow, w@.last());
                assert(p@ =~= parts@[i as int]@);
            }
        }
        i = i + 1;
    }
    assert(all.take(i as int) =~= all);
    w
}

/// Selecting by a conjunction is filtering the selection by the second conjunct.
proof fn lemma_select_and(n: nat, p: spec_fn(int) -> bool, q: spec_fn(int) -> bool, pq: spec_fn(int) -> bool)
    requires
        forall|i: int| #[trigger] pq(i) == (p(i) && q(i)),
    ensures
        select(n, pq) == select(n, p).filter(q),
    decreases n,
{
    reveal(Seq::filter);
    if n > 0 {
        lemma_select_and((n - 1) as nat, p, q, pq);
        let s = select((n - 1) as nat, p);
        if p(n - 1) {
            assert(s.push(n - 1).drop_last() =~= s);
        }
    }
}

// ---------------------------------------------------------------------------------------
// The resolver
// ---------------------------------------------------------------------------------------
/// Resolves a name against a graph's non-`Module` nodes admitted by a scope, in three
/// tiers of decreasing precision (see `resolve_spec`), and a call site using what its
/// adapter could work out about it (see `resolve_ref_spec`).
pub struct Resolver<'g> {
    graph: &'g SymbolGraph,
    admitted: Vec<bool>,
    by_qualified_path: StringHashMap<usize>,
    last_two_keys: StringHashMap<usize>,
    last_two_groups: Vec<Vec<usize>>,
    short_keys: StringHashMap<usize>,
    short_groups: Vec<Vec<usize>>,
    default_exports: Vec<usize>,
}

impl<'g> Resolver<'g> {
    /// The graph's nodes.
    pub closed spec fn nodes(&self) -> Seq<Node> {
        self.graph.nodes_seq()
    }

    /// Which of them this resolver admits.
    pub closed spec fn mask(&self) -> Seq<bool> {
        self.admitted@
    }

    pub closed spec fn graph_of(&self) -> &'g SymbolGraph {
        self.graph
    }

    pub closed spec fn wf(&self) -> bool {
        let g = self.graph.nodes_seq();
        let a = self.admitted@;
        &&& a.len() == g.len()
        &&& forall|k: Seq<char>| #[trigger]
            self.by_qualified_path@.contains_key(k) <==> last_match(g.len(), by_path(g, a, k)) is Some
        &&& forall|k: Seq<char>| #[trigger]
            self.by_qualified_path@.contains_key(k) ==> last_match(g.len(), by_path(g, a, k))
                == Some(self.by_qualified_path@[k] as int)
        &&& groups_ok(self.last_two_keys@, self.last_two_groups@, g.len(), last_two_family(g, a))
        &&& groups_ok(self.short_keys@, self.short_groups@, g.len(), short_family(g, a))
        &&& as_ints(self.default_exports@) == select(g.len(), |i: int| a[i] && g[i].is_default_export)
    }

    /// A resolver over every node of `graph`.
    pub fn build(graph: &'g SymbolGraph) -> (r: Resolver<'g>)
        ensures
            r.wf(),
            r.nodes() == graph.nodes_seq(),
            r.mask() == Seq::new(graph.nodes_seq().len(), |i: int| true),
            r.graph_of() == graph,
    {
        let n = graph.nodes().len();
        let mut admitted: Vec<bool> = Vec::new();
        let mut i: usize = 0;
        while i < n
            invariant
                i <= n == graph.nodes_seq().len(),
                admitted@ == Seq::new(i as nat, |j: int| true),
            decreases n - i,
        {
            admitted.push(true);
            i = i + 1;
            assert(admitted@ =~= Seq::new(i as nat, |j: int| true));
        }
        Self::build_where(graph, admitted)
    }

    /// A resolver over only the nodes `admitted` marks — see `link`, which keeps a call
    /// site from resolving into another language or an unreachable package.
    pub fn build_where(graph: &'g SymbolGraph, admitted: Vec<bool>) -> (r: Resolver<'g>)
        requires
            admitted@.len() == graph.nodes_seq().len(),
        ensures
            r.wf(),
            r.nodes() == graph.nodes_seq(),
            r.mask() == admitted@,
            r.graph_of() == graph,
    {
        let nodes = graph.nodes();
        let ghost g = graph.nodes_seq();
        let ghost a = admitted@;
        let mut by_qualified_path: StringHashMap<usize> = StringHashMap::new();
        let mut last_two_keys: StringHashMap<usize> = StringHashMap::new();
        let mut last_two_groups: Vec<Vec<usize>> = Vec::new();
        let mut short_keys: StringHashMap<usize> = StringHashMap::new();
        let mut short_groups: Vec<Vec<usize>> = Vec::new();
        let mut default_exports: Vec<usize> = Vec::new();
        let ghost dflt = |i: int| a[i] && g[i].is_default_export;
        let mut i: usize = 0;
        proof {
            assert forall|k: Seq<char>| #[trigger] by_qualified_path@.contains_key(k) <==> last_match(0, by_path(g, a, k)) is Some by {}
            assert(as_ints(default_exports@) =~= select(0, dflt));
        }
        while i < nodes.len()
            invariant
                nodes@ == g,
                a == admitted@,
                a.len() == g.len(),
                i <= g.len(),
                dflt == (|j: int| a[j] && g[j].is_default_export),
                forall|k: Seq<char>| #[trigger]
                    by_qualified_path@.contains_key(k) <==> last_match(i as nat, by_path(g, a, k)) is Some,
                forall|k: Seq<char>| #[trigger]
                    by_qualified_path@.contains_key(k) ==> last_match(i as nat, by_path(g, a, k))
                        == Some(by_qualified_path@[k] as int),
                groups_ok(last_two_keys@, last_two_groups@, i as nat, last_two_family(g, a)),
                groups_ok(short_keys@, short_groups@, i as nat, short_family(g, a)),
                as_ints(default_exports@) == select(i as nat, dflt),
            decreases g.len() - i,
        {
            let node = &nodes[i];
            let ghost n = i as nat;
            if admitted[i] && node.is_default_export {
                let ghost od = default_exports@;
                default_exports.push(i);
                proof {
                    lemma_as_ints_push(od, i);
                }
            }
            let is_module = match node.kind {
                NodeKind::Module => true,
                _ => false,
            };
            if !admitted[i] || is_module {
                proof {
                    assert forall|k: Seq<char>| !#[trigger] last_two_family(g, a)(k)(n as int) by {}
                    assert forall|k: Seq<char>| !#[trigger] short_family(g, a)(k)(n as int) by {}
                    lemma_groups_skip(last_two_keys@, last_two_groups@, n, last_two_family(g, a));
                    lemma_groups_skip(short_keys@, short_groups@, n, short_family(g, a));
                    assert forall|k: Seq<char>| last_match(n + 1, #[trigger] by_path(g, a, k))
                        == last_match(n, by_path(g, a, k)) by {}
                }
            } else {
                let path = chars_of(node.qualified_path.as_str());
                let ghost p = node.qualified_path@;
                let ghost old_map = by_qualified_path@;
                by_qualified_path.insert(node.qualified_path.clone(), i);
                proof {
                    assert forall|k: Seq<char>| #[trigger] by_qualified_path@.contains_key(k) <==> last_match(n + 1, by_path(g, a, k)) is Some by {
                        if k != p {
                            assert(last_match(n + 1, by_path(g, a, k)) == last_match(n, by_path(g, a, k)));
                        }
                    }
                    assert forall|k: Seq<char>| #[trigger] by_qualified_path@.contains_key(k) implies last_match(n + 1, by_path(g, a, k))
                        == Some(by_qualified_path@[k] as int) by {
                        if k != p {
                            assert(last_match(n + 1, by_path(g, a, k)) == last_match(n, by_path(g, a, k)));
                        }
                    }
                }
                let segs = split_path(path.as_slice());
                proof {
                    lemma_split_sep_nonempty(p);
                }
                let len = segs.len();
                if len >= 2 {
                    let mut two: Vec<Vec<char>> = Vec::new();
                    let first = slice_chars(segs[len - 2].as_slice(), 0, segs[len - 2].len());
                    let second = slice_chars(segs[len - 1].as_slice(), 0, segs[len - 1].len());
                    proof {
                        assert(first@ =~= segs@[len - 2]@);
                        assert(second@ =~= segs@[len - 1]@);
                    }
                    two.push(first);
                    two.push(second);
                    proof {
                        assert(path@ == p);
                        assert(vviews(segs@) == split_sep(p));
                        assert(vviews(segs@)[len - 2] == segs@[len - 2]@);
                        assert(vviews(segs@)[len - 1] == segs@[len - 1]@);
                        assert(vviews(two@) =~= split_sep(p).subrange(len - 2, len as int));
                    }
                    let joined = join_path(two.as_slice());
                    let key = string_of(joined.as_slice());
                    proof {
                        assert forall|k: Seq<char>| #[trigger] last_two_family(g, a)(k)(n as int) implies k == key@ by {}
                    }
                    add_to_group(&mut last_two_keys, &mut last_two_groups, key, i, Ghost(last_two_family(g, a)));
                } else {
                    proof {
                        assert forall|k: Seq<char>| !#[trigger] last_two_family(g, a)(k)(n as int) by {}
                        lemma_groups_skip(last_two_keys@, last_two_groups@, n, last_two_family(g, a));
                    }
                }
                let short = string_of(segs[len - 1].as_slice());
                proof {
                    assert(vviews(segs@)[len - 1] == segs@[len - 1]@);
                    assert(short@ == short_name(p));
                    assert forall|k: Seq<char>| #[trigger] short_family(g, a)(k)(n as int) implies k == short@ by {}
                }
                add_to_group(&mut short_keys, &mut short_groups, short, i, Ghost(short_family(g, a)));
            }
            i = i + 1;
        }
        Resolver {
            graph,
            admitted,
            by_qualified_path,
            last_two_keys,
            last_two_groups,
            short_keys,
            short_groups,
            default_exports,
        }
    }

    /// The ids of the nodes at `idx`.
    fn ids_for(&self, idx: &[usize]) -> (ids: Vec<NodeId>)
        requires
            forall|k: int| 0 <= k < idx@.len() ==> idx@[k] < self.nodes().len(),
        ensures
            id_views(ids@) == ids_at(self.nodes(), as_ints(idx@)),
    {
        let nodes = self.graph.nodes();
        let mut ids: Vec<NodeId> = Vec::new();
        let mut k: usize = 0;
        while k < idx.len()
            invariant
                nodes@ == self.nodes(),
                forall|t: int| 0 <= t < idx@.len() ==> idx@[t] < nodes@.len(),
                k <= idx@.len(),
                id_views(ids@) == ids_at(nodes@, as_ints(idx@).take(k as int)),
            decreases idx@.len() - k,
        {
            let ghost old_ids = ids@;
            ids.push(NodeId(nodes[idx[k]].id.0.clone()));
            proof {
                assert(id_views(ids@) =~= id_views(old_ids).push(nodes@[idx@[k as int] as int].id.0@));
                assert(as_ints(idx@).take(k + 1) =~= as_ints(idx@).take(k as int).push(idx@[k as int] as int));
                assert(ids_at(nodes@, as_ints(idx@).take(k + 1)) =~= ids_at(nodes@, as_ints(idx@).take(k as int)).push(nodes@[idx@[k as int] as int].id.0@));
            }
            k = k + 1;
        }
        assert(as_ints(idx@).take(k as int) =~= as_ints(idx@));
        ids
    }

    /// The node whose qualified path is exactly `name` (the last such), as a contract id is
    /// matched — never by a shorter tier.
    pub fn path_position(&self, name: &str) -> (r: Option<usize>)
        requires
            self.wf(),
        ensures
            opt_pos(r) == last_match(self.nodes().len(), by_path(self.nodes(), self.mask(), name@)),
            r matches Some(x) ==> x < self.nodes().len(),
    {
        proof {
            lemma_last_match(self.nodes().len(), by_path(self.nodes(), self.mask(), name@));
        }
        match self.by_qualified_path.get(name) {
            Some(ip) => Some(*ip),
            None => None,
        }
    }

    /// `resolve`, by node position.
    pub fn resolve_positions(&self, name: &str) -> (r: Option<(Vec<usize>, Confidence)>)
        requires
            self.wf(),
        ensures
            same_positions(r, resolve_spec(self.nodes(), self.mask(), name@)),
            r matches Some((idx, _)) ==> forall|k: int| 0 <= k < idx@.len() ==> idx@[k] < self.nodes().len(),
    {
        let ghost g = self.nodes();
        let ghost a = self.mask();
        if let Some(ip) = self.by_qualified_path.get(name) {
            let mut v: Vec<usize> = Vec::new();
            v.push(*ip);
            proof {
                lemma_last_match(g.len(), by_path(g, a, name@));
                assert(as_ints(v@) =~= seq![*ip as int]);
            }
            return Some((v, Confidence::Exact));
        }
        if let Some(gp) = self.last_two_keys.get(name) {
            let grp = &self.last_two_groups[*gp];
            let v = slice_usize(grp.as_slice());
            let c = if v.len() == 1 { Confidence::Exact } else { Confidence::Heuristic };
            proof {
                lemma_select(g.len(), by_last_two(g, a, name@));
                assert forall|k: int| 0 <= k < v@.len() implies v@[k] < g.len() by {
                    assert(as_ints(v@)[k] == v@[k] as int);
                }
            }
            return Some((v, c));
        }
        if let Some(gp) = self.short_keys.get(name) {
            let grp = &self.short_groups[*gp];
            let v = slice_usize(grp.as_slice());
            let c = if v.len() == 1 { Confidence::Exact } else { Confidence::Heuristic };
            proof {
                lemma_select(g.len(), by_short(g, a, name@));
                assert(last_two_family(g, a)(name@) == by_last_two(g, a, name@));
                assert forall|k: int| 0 <= k < v@.len() implies v@[k] < g.len() by {
                    assert(as_ints(v@)[k] == v@[k] as int);
                }
            }
            return Some((v, c));
        }
        proof {
            assert(last_two_family(g, a)(name@) == by_last_two(g, a, name@));
            assert(short_family(g, a)(name@) == by_short(g, a, name@));
        }
        None
    }

    /// Tiered resolution of a name as a user (or a `--change` argument) states it.
    pub fn resolve(&self, name: &str) -> (r: Option<(Vec<NodeId>, Confidence)>)
        requires
            self.wf(),
        ensures
            same_resolution(r, self.nodes(), resolve_spec(self.nodes(), self.mask(), name@)),
    {
        match self.resolve_positions(name) {
            Some((idx, c)) => Some((self.ids_for(idx.as_slice()), c)),
            None => None,
        }
    }

    /// Every non-generated node named `name` under `module` if there is one, else every
    /// such node.
    fn in_module(&self, module: &str, name: &str) -> (r: Vec<usize>)
        requires
            self.wf(),
        ensures
            as_ints(r@) == in_module_spec(self.nodes(), self.mask(), module@, name@),
            forall|k: int| 0 <= k < r@.len() ==> r@[k] < self.nodes().len(),
    {
        let ghost g = self.nodes();
        let ghost a = self.mask();
        let ghost m = module@;
        let ghost nm = name@;
        let ghost under_p = |i: int| under(qp(g, i), m);
        let ghost real_p = |i: int| under(qp(g, i), m) && !g[i].is_generated;
        proof {
            lemma_select_and(g.len(), by_short(g, a, nm), under_p, in_module_p(g, a, m, nm));
            lemma_select_and(g.len(), by_short(g, a, nm), real_p, in_module_real_p(g, a, m, nm));
            assert(short_family(g, a)(nm) == by_short(g, a, nm));
        }
        let gp = match self.short_keys.get(name) {
            Some(gp) => *gp,
            None => {
                proof {
                    lemma_select_empty(g.len(), by_short(g, a, nm));
                    lemma_select_empty(g.len(), in_module_p(g, a, m, nm));
                    lemma_select_empty(g.len(), in_module_real_p(g, a, m, nm));
                    assert(in_module_spec(g, a, m, nm) =~= Seq::<int>::empty());
                }
                return Vec::new();
            },
        };
        let candidates = &self.short_groups[gp];
        let ghost cands = as_ints(candidates@);
        proof {
            lemma_select(g.len(), by_short(g, a, nm));
        }
        let mod_chars = chars_of(module);
        let wanted_segs = wanted_segments(mod_chars.as_slice());
        let nodes = self.graph.nodes();
        let mut matched: Vec<usize> = Vec::new();
        let mut genuine: Vec<usize> = Vec::new();
        let mut k: usize = 0;
        while k < candidates.len()
            invariant
                nodes@ == g,
                under_p == (|i: int| under(qp(g, i), m)),
                real_p == (|i: int| under(qp(g, i), m) && !g[i].is_generated),
                cands == as_ints(candidates@),
                cands == select(g.len(), by_short(g, a, nm)),
                forall|t: int| 0 <= t < cands.len() ==> 0 <= #[trigger] cands[t] < g.len(),
                vviews(wanted_segs@) == wanted(m),
                k <= candidates@.len(),
                as_ints(matched@) == cands.take(k as int).filter(under_p),
                as_ints(genuine@) == cands.take(k as int).filter(real_p),
                forall|t: int| 0 <= t < matched@.len() ==> matched@[t] < g.len(),
                forall|t: int| 0 <= t < genuine@.len() ==> genuine@[t] < g.len(),
            decreases candidates@.len() - k,
        {
            let j = candidates[k];
            proof {
                reveal(Seq::filter);
                assert(cands.take(k + 1).drop_last() =~= cands.take(k as int));
                assert(cands.take(k + 1).last() == j as int);
                assert(cands[k as int] == j as int);
            }
            let node = &nodes[j];
            let path = chars_of(node.qualified_path.as_str());
            let segs = split_path(path.as_slice());
            proof {
                lemma_split_sep_nonempty(path@);
                assert(vviews(segs@).take(segs@.len() - 1) =~= split_sep(qp(g, j as int)).drop_last());
            }
            let inside = contains_run(segs.as_slice(), segs.len() - 1, wanted_segs.as_slice());
            proof {
                assert(nodes@[j as int] == g[j as int]);
                assert(path@ == qp(g, j as int));
                assert(vviews(segs@) == split_sep(qp(g, j as int)));
                assert(vviews(segs@).take(segs@.len() - 1) =~= split_sep(qp(g, j as int)).drop_last());
                assert(inside == contains_run_spec(split_sep(qp(g, j as int)).drop_last(), wanted(m)));
                assert(inside == under(qp(g, j as int), m));
                assert(inside == under_p(j as int));
                assert(real_p(j as int) == (inside && !node.is_generated));
            }
            if inside {
                let ghost om = matched@;
                matched.push(j);
                proof {
                    lemma_as_ints_push(om, j);
                }
                if !node.is_generated {
                    let ghost orr = genuine@;
                    genuine.push(j);
                    proof {
                        lemma_as_ints_push(orr, j);
                    }
                }
            }
            k = k + 1;
        }
        proof {
            assert(cands.take(k as int) =~= cands);
        }
        if genuine.len() > 0 {
            genuine
        } else {
            matched
        }
    }

    /// Every default export under `module`.
    fn in_module_default(&self, module: &str) -> (r: Vec<usize>)
        requires
            self.wf(),
        ensures
            as_ints(r@) == select(self.nodes().len(), default_export_p(self.nodes(), self.mask(), module@)),
            forall|k: int| 0 <= k < r@.len() ==> r@[k] < self.nodes().len(),
    {
        let ghost g = self.nodes();
        let ghost a = self.mask();
        let ghost m = module@;
        let ghost under_p = |i: int| under(qp(g, i), m);
        let ghost dflt = |i: int| a[i] && g[i].is_default_export;
        proof {
            lemma_select_and(g.len(), dflt, under_p, default_export_p(g, a, m));
            lemma_select(g.len(), dflt);
        }
        let ghost cands = as_ints(self.default_exports@);
        let mod_chars = chars_of(module);
        let wanted_segs = wanted_segments(mod_chars.as_slice());
        let nodes = self.graph.nodes();
        let mut out: Vec<usize> = Vec::new();
        let mut k: usize = 0;
        while k < self.default_exports.len()
            invariant
                self.wf(),
                nodes@ == g,
                under_p == (|i: int| under(qp(g, i), m)),
                g == self.nodes(),
                a == self.mask(),
                cands == as_ints(self.default_exports@),
                cands == select(g.len(), dflt),
                forall|t: int| 0 <= t < cands.len() ==> 0 <= #[trigger] cands[t] < g.len(),
                vviews(wanted_segs@) == wanted(m),
                k <= self.default_exports@.len(),
                as_ints(out@) == cands.take(k as int).filter(under_p),
                forall|t: int| 0 <= t < out@.len() ==> out@[t] < g.len(),
            decreases self.default_exports@.len() - k,
        {
            let j = self.default_exports[k];
            proof {
                reveal(Seq::filter);
                assert(cands.take(k + 1).drop_last() =~= cands.take(k as int));
                assert(cands[k as int] == j as int);
            }
            let path = chars_of(nodes[j].qualified_path.as_str());
            let segs = split_path(path.as_slice());
            proof {
                lemma_split_sep_nonempty(path@);
                assert(vviews(segs@).take(segs@.len() - 1) =~= split_sep(qp(g, j as int)).drop_last());
            }
            let inside = contains_run(segs.as_slice(), segs.len() - 1, wanted_segs.as_slice());
            proof {
                assert(nodes@[j as int] == g[j as int]);
                assert(path@ == qp(g, j as int));
                assert(vviews(segs@) == split_sep(qp(g, j as int)));
                assert(vviews(segs@).take(segs@.len() - 1) =~= split_sep(qp(g, j as int)).drop_last());
                assert(inside == under(qp(g, j as int), m));
                assert(inside == under_p(j as int));
            }
            if inside {
                let ghost oo = out@;
                out.push(j);
                proof {
                    lemma_as_ints_push(oo, j);
                }
            }
            k = k + 1;
        }
        assert(cands.take(k as int) =~= cands);
        out
    }

    /// `resolve_ref`, by node position.
    pub fn resolve_ref_positions(&self, r: &RefDecl) -> (res: Option<(Vec<usize>, Confidence)>)
        requires
            self.wf(),
        ensures
            same_positions(res, resolve_ref_spec(self.nodes(), self.mask(), r.to_target@, r.to_name@)),
            res matches Some((idx, _)) ==> forall|k: int| 0 <= k < idx@.len() ==> idx@[k] < self.nodes().len(),
    {
        match &r.to_target {
            RefTarget::Module(module) => {
                if module.as_str().is_empty() {
                    return self.resolve_positions(r.to_name.as_str());
                }
                let ids = self.in_module(module.as_str(), r.to_name.as_str());
                if ids.len() == 0 {
                    return None;
                }
                let c = if ids.len() == 1 { Confidence::Exact } else { Confidence::Probable };
                Some((ids, c))
            },
            RefTarget::ModuleDefault(module) => {
                let ids = self.in_module_default(module.as_str());
                if ids.len() == 0 {
                    return None;
                }
                let c = if ids.len() == 1 { Confidence::Exact } else { Confidence::Probable };
                Some((ids, c))
            },
            RefTarget::Opaque => match self.resolve_positions(r.to_name.as_str()) {
                Some((ids, c)) => Some((ids, c.weaker(Confidence::Probable))),
                None => None,
            },
            RefTarget::Unscoped => self.resolve_positions(r.to_name.as_str()),
        }
    }

    /// Resolves one call site, using whatever the adapter could work out about it before
    /// falling back to the structural tiers. A bare name is never enough for `Exact`.
    pub fn resolve_ref(&self, r: &RefDecl) -> (res: Option<(Vec<NodeId>, Confidence)>)
        requires
            self.wf(),
        ensures
            same_resolution(res, self.nodes(), resolve_ref_spec(self.nodes(), self.mask(), r.to_target@, r.to_name@)),
    {
        match self.resolve_ref_positions(r) {
            Some((idx, c)) => Some((self.ids_for(idx.as_slice()), c)),
            None => None,
        }
    }
}

/// A copy of a list of positions.
pub(crate) fn slice_usize(s: &[usize]) -> (r: Vec<usize>)
    ensures
        r@ == s@,
{
    let mut r: Vec<usize> = Vec::new();
    let mut i: usize = 0;
    while i < s.len()
        invariant
            i <= s@.len(),
            r@ == s@.take(i as int),
        decreases s@.len() - i,
    {
        r.push(s[i]);
        i = i + 1;
        assert(r@ =~= s@.take(i as int));
    }
    assert(s@.take(i as int) =~= s@);
    r
}

/// Without scope evidence a reference never resolves above `Probable`, and a module
/// binding that holds no such name resolves to nothing rather than to a same-named
/// symbol elsewhere.
pub proof fn law_no_exact_without_evidence(g: Seq<Node>, a: Seq<bool>, name: Seq<char>, m: Seq<char>)
    ensures
        resolve_ref_spec(g, a, RefTargetView::Opaque, name) matches Some((_, c)) ==> rank(c) <= rank(Confidence::Probable),
        m.len() > 0 && in_module_spec(g, a, m, name).len() == 0 ==> resolve_ref_spec(g, a, RefTargetView::Module(m), name) is None,
{
}

/// A call bound to a module reaches every hand-written symbol of that name whose path
/// holds the module's segments as a contiguous run anywhere before its last segment, at
/// any offset: an import of `example.com/x/internal/svc` reaches
/// `internal::svc::handler::Handle`, not only paths that start with the module.
pub proof fn law_module_run_anywhere_resolves(g: Seq<Node>, a: Seq<bool>, m: Seq<char>, name: Seq<char>, i: int, k: int)
    requires
        m.len() > 0,
        0 <= i < g.len(),
        eligible(g, a, i),
        !g[i].is_generated,
        short_name(qp(g, i)) == name,
        0 <= k,
        k + wanted(m).len() <= split_sep(qp(g, i)).drop_last().len(),
        split_sep(qp(g, i)).drop_last().subrange(k, k + wanted(m).len()) == wanted(m),
    ensures
        resolve_ref_spec(g, a, RefTargetView::Module(m), name) matches Some((ids, _)) && ids.contains(i),
{
    let hay = split_sep(qp(g, i)).drop_last();
    assert(hay.subrange(k, k + wanted(m).len()) == wanted(m));
    assert(contains_run_spec(hay, wanted(m)));
    assert(under(qp(g, i), m));
    assert(in_module_real_p(g, a, m, name)(i));
    lemma_select(g.len(), in_module_real_p(g, a, m, name));
    assert(select(g.len(), in_module_real_p(g, a, m, name)).contains(i));
}

/// A call bound to a module resolves only inside that module: every symbol it resolves to
/// is an admitted symbol of that name whose path holds the module's segments as a
/// contiguous run before its last segment.
pub proof fn law_module_resolution_stays_in_module(g: Seq<Node>, a: Seq<bool>, m: Seq<char>, name: Seq<char>, q: int)
    requires
        m.len() > 0,
        resolve_ref_spec(g, a, RefTargetView::Module(m), name) matches Some((ids, _)) && ids.contains(q),
    ensures
        0 <= q < g.len(),
        eligible(g, a, q),
        short_name(qp(g, q)) == name,
        exists|k: int|
            0 <= k && k + wanted(m).len() <= split_sep(qp(g, q)).drop_last().len() && #[trigger] split_sep(qp(g, q)).drop_last().subrange(
                k,
                k + wanted(m).len(),
            ) == wanted(m),
{
    lemma_select(g.len(), in_module_real_p(g, a, m, name));
    lemma_select(g.len(), in_module_p(g, a, m, name));
    let ids = in_module_spec(g, a, m, name);
    let t = choose|t: int| 0 <= t < ids.len() && ids[t] == q;
    assert(in_module_p(g, a, m, name)(ids[t]));
    let hay = split_sep(qp(g, q)).drop_last();
    assert(under(qp(g, q), m));
    if wanted(m).len() == 0 {
        assert(hay.subrange(0, 0int + wanted(m).len()) =~= wanted(m));
    }
}

} // verus!
