//! Blast radius: who depends, directly or through others, on a set of seed symbols, and
//! which contracts and tests that reaches.
use vstd::hash_map::StringHashMap;
use vstd::hash_set::StringHashSet;
use vstd::prelude::*;
use vstd::set_lib::{lemma_int_range, lemma_len_subset, set_int_range};

use crate::change::{target_of, ChangeSpec};
use crate::diff::{range_views, DiffTouches};
use crate::graph::{has_id, rank, weaker_of, Confidence, ContractKind, Edge, EdgeKind, Node, NodeId, NodeKind, SymbolGraph};
use crate::indices::{as_ints, lemma_select, select};
use crate::link::opt_int;
use crate::order::{char_views, insert_sorted, lemma_lex_irreflexive, lemma_lex_total, lemma_lex_transitive, lex_less, lex_lt, strictly_sorted};
use crate::text::{chars_eq, chars_of, slice_chars, str_eq, string_of};
use crate::link::all_admitted;
use crate::linker::{add_to_group, groups_ok, id_views, ids_at, lemma_groups_skip, resolve_spec, Resolver};

verus! {

/// Edges a blast-radius walk follows backward: who calls or references a symbol, and who
/// produces, consumes, reads or writes a contract.
pub open spec fn walks_back(k: EdgeKind) -> bool {
    match k {
        EdgeKind::Implements => false,
        EdgeKind::Contains => false,
        EdgeKind::Imports => false,
        _ => true,
    }
}

pub open spec fn caller_family(edges: Seq<Edge>) -> spec_fn(Seq<char>) -> spec_fn(int) -> bool {
    |x: Seq<char>| |k: int| walks_back(edges[k].kind) && edges[k].to.0@ == x
}

/// Positions of the walked edges that point at `x`, in edge order.
pub open spec fn callers_of(edges: Seq<Edge>, x: Seq<char>) -> Seq<int> {
    select(edges.len(), caller_family(edges)(x))
}

/// One dependent the walk reached: its id, the confidence of the chain that reached it,
/// the position (in discovery order) of the dependent it was reached from (`None` for a
/// seed), whether it was reached in the first hop (a direct dependent), and the position of
/// the edge followed.
#[derive(Debug)]
pub struct Reach {
    pub id: String,
    pub confidence: Confidence,
    pub parent: Option<usize>,
    pub direct: bool,
    pub edge: usize,
}

pub struct ReachView {
    pub id: Seq<char>,
    pub confidence: Confidence,
    pub parent: Option<int>,
    pub direct: bool,
    pub edge: int,
}

impl View for Reach {
    type V = ReachView;

    open spec fn view(&self) -> ReachView {
        ReachView {
            id: self.id@,
            confidence: self.confidence,
            parent: opt_int(self.parent),
            direct: self.direct,
            edge: self.edge as int,
        }
    }
}

pub open spec fn reach_views(v: Seq<Reach>) -> Seq<ReachView> {
    v.map_values(|r: Reach| r@)
}

/// A frontier entry: a node's id and where it stands in the discovery order (`None` for
/// a seed).
pub open spec fn frontier_views(v: Seq<(String, Option<usize>)>) -> Seq<(Seq<char>, Option<int>)> {
    v.map_values(|e: (String, Option<usize>)| (e.0@, opt_int(e.1)))
}

pub struct WalkView {
    pub visited: Set<Seq<char>>,
    pub found: Seq<ReachView>,
    pub next: Seq<(Seq<char>, Option<int>)>,
}

/// The confidence a frontier entry carries into its callers: a seed is certain.
pub open spec fn conf_at(found: Seq<ReachView>, at: Option<int>) -> Confidence {
    match at {
        Some(i) => found[i].confidence,
        None => Confidence::Exact,
    }
}

/// Following the edges at positions `ks` backward from a frontier entry: every caller not
/// yet visited is recorded with the entry's confidence weakened by the edge's, and joins
/// the next frontier unless that confidence is `Heuristic` — a chain that weak is
/// reported, never walked further.
pub open spec fn visit(
    edges: Seq<Edge>,
    st: WalkView,
    xc: Confidence,
    xi: Option<int>,
    first: bool,
    ks: Seq<int>,
) -> WalkView
    decreases ks.len(),
{
    if ks.len() == 0 {
        st
    } else {
        let s = visit(edges, st, xc, xi, first, ks.drop_last());
        let k = ks.last();
        let c = edges[k].from.0@;
        if s.visited.contains(c) {
            s
        } else {
            WalkView {
                visited: s.visited.insert(c),
                found: s.found.push(
                    ReachView { id: c, confidence: weaker_of(xc, edges[k].confidence), parent: xi, direct: first, edge: k },
                ),
                next: if weaker_of(xc, edges[k].confidence) == Confidence::Heuristic {
                    s.next
                } else {
                    s.next.push((c, Some(s.found.len() as int)))
                },
            }
        }
    }
}

/// One hop: every frontier entry, in order, visits its callers.
pub open spec fn sweep(
    edges: Seq<Edge>,
    st: WalkView,
    frontier: Seq<(Seq<char>, Option<int>)>,
    first: bool,
) -> WalkView
    decreases frontier.len(),
{
    if frontier.len() == 0 {
        st
    } else {
        let s = sweep(edges, st, frontier.drop_last(), first);
        let x = frontier.last();
        visit(edges, s, conf_at(s.found, x.1), x.1, first, callers_of(edges, x.0))
    }
}

/// Hops until the frontier runs dry (or the fuel does).
pub open spec fn bfs(
    edges: Seq<Edge>,
    visited: Set<Seq<char>>,
    found: Seq<ReachView>,
    frontier: Seq<(Seq<char>, Option<int>)>,
    first: bool,
    fuel: nat,
) -> (Set<Seq<char>>, Seq<ReachView>)
    decreases fuel,
{
    if fuel == 0 || frontier.len() == 0 {
        (visited, found)
    } else {
        let s = sweep(edges, WalkView { visited, found, next: Seq::empty() }, frontier, first);
        bfs(edges, s.visited, s.found, s.next, false, (fuel - 1) as nat)
    }
}

pub open spec fn seed_frontier(seeds: Seq<Seq<char>>) -> Seq<(Seq<char>, Option<int>)> {
    seeds.map_values(|s: Seq<char>| (s, None::<int>))
}

/// The breadth-first walk backward from `seeds`: the ids it visited (seeds included) and
/// every dependent it reached, in discovery order. Each hop can only discover what an edge
/// starts from, so `edges.len() + 1` hops always suffice.
pub open spec fn reached(edges: Seq<Edge>, seeds: Seq<Seq<char>>) -> (Set<Seq<char>>, Seq<ReachView>) {
    bfs(edges, seeds.to_set(), Seq::empty(), seed_frontier(seeds), true, (edges.len() + 1) as nat)
}

pub open spec fn string_views(v: Seq<String>) -> Seq<Seq<char>> {
    v.map_values(|s: String| s@)
}

/// What the walk keeps true of what it has found so far.
pub open spec fn found_ok(edges: Seq<Edge>, visited: Set<Seq<char>>, found: Seq<ReachView>) -> bool {
    &&& forall|a: int, b: int| 0 <= a < found.len() && 0 <= b < found.len() && a != b ==> found[a].id != found[b].id
    &&& forall|a: int| 0 <= a < found.len() ==> 0 <= #[trigger] found[a].edge < edges.len()
        && edges[found[a].edge].from.0@ == found[a].id && visited.contains(found[a].id)
        && (found[a].parent matches Some(p) ==> 0 <= p < a)
}

/// Distinct dependents are reached over distinct edges, so there are no more of them than
/// edges.
pub(crate) proof fn lemma_found_bound(edges: Seq<Edge>, visited: Set<Seq<char>>, found: Seq<ReachView>)
    requires
        found_ok(edges, visited, found),
    ensures
        found.len() <= edges.len(),
{
    let es = found.map_values(|r: ReachView| r.edge);
    assert(es.no_duplicates()) by {
        assert forall|a: int, b: int| 0 <= a < es.len() && 0 <= b < es.len() && a != b implies es[a] != es[b] by {
            assert(found[a].edge == es[a]);
            assert(found[b].edge == es[b]);
        }
    }
    es.unique_seq_to_set();
    lemma_int_range(0, edges.len() as int);
    assert(es.to_set().subset_of(set_int_range(0, edges.len() as int))) by {
        assert forall|e: int| es.to_set().contains(e) implies set_int_range(0, edges.len() as int).contains(e) by {
            let a = choose|a: int| 0 <= a < es.len() && es[a] == e;
            assert(found[a].edge == e);
        }
    }
    lemma_len_subset(es.to_set(), set_int_range(0, edges.len() as int));
}

/// Every frontier entry that stands for a dependent points into the discovery order.
pub open spec fn frontier_ok(frontier: Seq<(Seq<char>, Option<int>)>, n: int) -> bool {
    forall|j: int| 0 <= j < frontier.len() ==> (#[trigger] frontier[j].1 matches Some(p) ==> 0 <= p < n)
}

fn walks(k: EdgeKind) -> (b: bool)
    ensures
        b == walks_back(k),
{
    match k {
        EdgeKind::Implements => false,
        EdgeKind::Contains => false,
        EdgeKind::Imports => false,
        _ => true,
    }
}

/// The walked edges, grouped by the id they point at.
fn callers_index(edges: &[Edge]) -> (r: (StringHashMap<usize>, Vec<Vec<usize>>))
    ensures
        groups_ok(r.0@, r.1@, edges@.len(), caller_family(edges@)),
{
    let mut keys: StringHashMap<usize> = StringHashMap::new();
    let mut groups: Vec<Vec<usize>> = Vec::new();
    let ghost fam = caller_family(edges@);
    let mut i: usize = 0;
    proof {
        assert forall|k: Seq<char>| #[trigger] keys@.contains_key(k) <==> select(0, fam(k)).len() > 0 by {}
    }
    while i < edges.len()
        invariant
            i <= edges@.len(),
            fam == caller_family(edges@),
            groups_ok(keys@, groups@, i as nat, fam),
        decreases edges@.len() - i,
    {
        let e = &edges[i];
        if walks(e.kind) {
            proof {
                assert forall|k: Seq<char>| #[trigger] fam(k)(i as int) implies k == e.to.0@ by {}
            }
            add_to_group(&mut keys, &mut groups, e.to.0.clone(), i, Ghost(fam));
        } else {
            proof {
                lemma_groups_skip(keys@, groups@, i as nat, fam);
            }
        }
        i = i + 1;
    }
    (keys, groups)
}

/// Follows the edges at positions `list` backward from one frontier entry.
fn visit_callers(
    edges: &[Edge],
    list: &[usize],
    visited: &mut StringHashSet,
    found: &mut Vec<Reach>,
    next: &mut Vec<(String, Option<usize>)>,
    xc: Confidence,
    xi: Option<usize>,
    first: bool,
)
    requires
        forall|m: int| 0 <= m < list@.len() ==> #[trigger] list@[m] < edges@.len(),
        found_ok(edges@, old(visited)@, reach_views(old(found)@)),
        xi matches Some(p) ==> p < old(found)@.len(),
        frontier_ok(frontier_views(old(next)@), old(found)@.len() as int),
    ensures
        (WalkView {
            visited: final(visited)@,
            found: reach_views(final(found)@),
            next: frontier_views(final(next)@),
        }) == visit(
            edges@,
            WalkView {
                visited: old(visited)@,
                found: reach_views(old(found)@),
                next: frontier_views(old(next)@),
            },
            xc,
            opt_int(xi),
            first,
            as_ints(list@),
        ),
        found_ok(edges@, final(visited)@, reach_views(final(found)@)),
        old(next)@.len() <= final(next)@.len(),
        final(next)@.len() - old(next)@.len() <= final(found)@.len() - old(found)@.len(),
        frontier_ok(frontier_views(final(next)@), final(found)@.len() as int),
{
    let ghost st0 = WalkView {
        visited: visited@,
        found: reach_views(found@),
        next: frontier_views(next@),
    };
    let ghost ks = as_ints(list@);
    let ghost n0 = next@.len();
    let ghost f0 = found@.len();
    let mut m: usize = 0;
    while m < list.len()
        invariant
            0 <= m <= list@.len(),
            ks == as_ints(list@),
            forall|q: int| 0 <= q < list@.len() ==> #[trigger] list@[q] < edges@.len(),
            (WalkView { visited: visited@, found: reach_views(found@), next: frontier_views(next@) })
                == visit(edges@, st0, xc, opt_int(xi), first, ks.take(m as int)),
            found_ok(edges@, visited@, reach_views(found@)),
            xi matches Some(p) ==> p < f0 <= found@.len(),
            n0 <= next@.len(),
            next@.len() - n0 <= found@.len() - f0,
            frontier_ok(frontier_views(next@), found@.len() as int),
        decreases list@.len() - m,
    {
        let k = list[m];
        let e = &edges[k];
        proof {
            assert(ks.take(m + 1).drop_last() =~= ks.take(m as int));
            assert(ks.take(m + 1).last() == k as int);
        }
        if !visited.contains(e.from.0.as_str()) {
            let ghost ov = visited@;
            let ghost of = reach_views(found@);
            let ghost on = frontier_views(next@);
            visited.insert(e.from.0.clone());
            let at = found.len();
            let c = xc.weaker(e.confidence);
            found.push(Reach { id: e.from.0.clone(), confidence: c, parent: xi, direct: first, edge: k });
            if c != Confidence::Heuristic {
                next.push((e.from.0.clone(), Some(at)));
                proof {
                    assert(frontier_views(next@) =~= on.push((e.from.0@, Some(at as int))));
                }
            }
            proof {
                assert(reach_views(found@) =~= of.push(
                    ReachView { id: e.from.0@, confidence: weaker_of(xc, e.confidence), parent: opt_int(xi), direct: first, edge: k as int },
                ));
                let nf = reach_views(found@);
                assert forall|a: int, b: int| 0 <= a < nf.len() && 0 <= b < nf.len() && a != b implies nf[a].id != nf[b].id by {
                    if a < of.len() && b < of.len() {
                        assert(nf[a] == of[a]);
                        assert(nf[b] == of[b]);
                    } else if a < of.len() {
                        assert(nf[a] == of[a]);
                        assert(0 <= of[a].edge);
                        assert(ov.contains(of[a].id));
                    } else if b < of.len() {
                        assert(nf[b] == of[b]);
                        assert(0 <= of[b].edge);
                        assert(ov.contains(of[b].id));
                    }
                }
                assert forall|a: int| 0 <= a < nf.len() implies 0 <= #[trigger] nf[a].edge < edges@.len()
                    && edges@[nf[a].edge].from.0@ == nf[a].id && visited@.contains(nf[a].id)
                    && (nf[a].parent matches Some(p) ==> 0 <= p < a) by {
                    if a < of.len() {
                        assert(nf[a] == of[a]);
                    }
                }
                let nn = frontier_views(next@);
                assert forall|j: int| 0 <= j < nn.len() implies (#[trigger] nn[j].1 matches Some(p) ==> 0 <= p < nf.len()) by {
                    if j < on.len() {
                        assert(nn[j] == on[j]);
                    }
                }
            }
        }
        m = m + 1;
    }
    proof {
        assert(ks.take(list@.len() as int) =~= ks);
    }
}

/// The breadth-first walk backward from `seeds` over the walked edges.
fn walk(edges: &[Edge], seeds: &[String]) -> (r: (StringHashSet, Vec<Reach>))
    ensures
        (r.0@, reach_views(r.1@)) == reached(edges@, string_views(seeds@)),
        found_ok(edges@, r.0@, reach_views(r.1@)),
{
    let (keys, groups) = callers_index(edges);
    let ghost fam = caller_family(edges@);
    let ghost e = edges@;
    let ghost sv = string_views(seeds@);
    let mut visited = StringHashSet::new();
    let mut frontier: Vec<(String, Option<usize>)> = Vec::new();
    let mut i: usize = 0;
    proof {
        assert(visited@ =~= sv.take(0).to_set());
        assert(frontier_views(frontier@) =~= seed_frontier(sv.take(0)));
    }
    while i < seeds.len()
        invariant
            i <= seeds@.len(),
            sv == string_views(seeds@),
            visited@ == sv.take(i as int).to_set(),
            frontier_views(frontier@) == seed_frontier(sv.take(i as int)),
        decreases seeds@.len() - i,
    {
        let ghost ofr = frontier_views(frontier@);
        visited.insert(seeds[i].clone());
        frontier.push((seeds[i].clone(), None));
        proof {
            assert(sv.take(i + 1) =~= sv.take(i as int).push(seeds@[i as int]@));
            sv.take(i as int).lemma_push_to_set_commute(seeds@[i as int]@);
            assert(visited@ =~= sv.take(i + 1).to_set());
            assert(frontier_views(frontier@) =~= ofr.push((seeds@[i as int]@, None)));
            assert(frontier_views(frontier@) =~= seed_frontier(sv.take(i + 1)));
        }
        i = i + 1;
    }
    proof {
        assert(sv.take(seeds@.len() as int) =~= sv);
    }
    let mut found: Vec<Reach> = Vec::new();
    let mut first = true;
    let ghost total = reached(e, sv);
    let ghost mut done: nat = 0;
    proof {
        assert(frontier_ok(frontier_views(frontier@), 0));
        assert(reach_views(found@) =~= Seq::<ReachView>::empty());
    }
    while frontier.len() > 0
        invariant
            e == edges@,
            fam == caller_family(e),
            groups_ok(keys@, groups@, e.len(), fam),
            bfs(e, visited@, reach_views(found@), frontier_views(frontier@), first, (e.len() + 1 - done) as nat) == total,
            found_ok(e, visited@, reach_views(found@)),
            frontier_ok(frontier_views(frontier@), found@.len() as int),
            frontier@.len() > 0 ==> done <= found@.len(),
        decreases 2 * (e.len() - found@.len()) + (if frontier@.len() > 0 { 1int } else { 0int }),
    {
        proof {
            lemma_found_bound(e, visited@, reach_views(found@));
        }
        let ghost fuel = (e.len() + 1 - done) as nat;
        let ghost st0 = WalkView { visited: visited@, found: reach_views(found@), next: Seq::empty() };
        let ghost fr = frontier_views(frontier@);
        let ghost f0 = found@.len();
        let mut next: Vec<(String, Option<usize>)> = Vec::new();
        let mut j: usize = 0;
        proof {
            assert(frontier_views(next@) =~= Seq::<(Seq<char>, Option<int>)>::empty());
            assert(fr.take(0) =~= Seq::<(Seq<char>, Option<int>)>::empty());
        }
        while j < frontier.len()
            invariant
                0 <= j <= frontier@.len(),
                fr == frontier_views(frontier@),
                e == edges@,
                fam == caller_family(e),
                groups_ok(keys@, groups@, e.len(), fam),
                (WalkView { visited: visited@, found: reach_views(found@), next: frontier_views(next@) })
                    == sweep(e, st0, fr.take(j as int), first),
                found_ok(e, visited@, reach_views(found@)),
                frontier_ok(fr, f0 as int),
                f0 <= found@.len(),
                next@.len() + f0 <= found@.len(),
                frontier_ok(frontier_views(next@), found@.len() as int),
            decreases frontier@.len() - j,
        {
            let x = &frontier[j].0;
            let xi = frontier[j].1;
            proof {
                assert(fr.take(j + 1).drop_last() =~= fr.take(j as int));
                assert(fr.take(j + 1).last() == fr[j as int]);
                assert(fr[j as int] == (x@, opt_int(xi)));
            }
            proof {
                assert(fr[j as int].1 matches Some(p) ==> 0 <= p < f0);
            }
            let xc = match xi {
                Some(p) => found[p].confidence,
                None => Confidence::Exact,
            };
            proof {
                assert(xc == conf_at(reach_views(found@), opt_int(xi)));
            }
            match keys.get(x.as_str()) {
                Some(gp) => {
                    let g = *gp;
                    proof {
                        lemma_select(e.len(), fam(x@));
                        assert(as_ints(groups@[g as int]@) == callers_of(e, x@));
                        assert forall|m: int| 0 <= m < groups@[g as int]@.len() implies #[trigger] groups@[g as int]@[m] < e.len() by {
                            assert(as_ints(groups@[g as int]@)[m] == groups@[g as int]@[m] as int);
                        }
                    }
                    visit_callers(edges, groups[g].as_slice(), &mut visited, &mut found, &mut next, xc, xi, first);
                },
                None => {
                    proof {
                        assert(callers_of(e, x@) =~= Seq::<int>::empty());
                    }
                },
            }
            j = j + 1;
        }
        proof {
            assert(fr.take(fr.len() as int) =~= fr);
            lemma_found_bound(e, visited@, reach_views(found@));
            if next@.len() > 0 {
                assert(done + 1 <= found@.len());
            }
        }
        frontier = next;
        first = false;
        proof {
            done = done + 1;
        }
    }
    (visited, found)
}

/// A named entry of a report section being gathered: its name, confidence, and the
/// position (in discovery order) of the dependent it stands for.
pub struct Row {
    pub name: Vec<char>,
    pub confidence: Confidence,
    pub at: usize,
}

pub open spec fn row_names(rows: Seq<Row>) -> Seq<Seq<char>> {
    rows.map_values(|r: Row| r.name@)
}

/// Adding `(c, at)` under `n`: a new name keeps both; a known name either keeps its first
/// position and weakens its confidence, or (with `replace`) takes the new pair.
pub open spec fn merged(
    m: Map<Seq<char>, (Confidence, int)>,
    n: Seq<char>,
    c: Confidence,
    at: int,
    replace: bool,
) -> Map<Seq<char>, (Confidence, int)> {
    if m.contains_key(n) && !replace {
        m.insert(n, (weaker_of(m[n].0, c), m[n].1))
    } else {
        m.insert(n, (c, at))
    }
}

/// `rows` lists the entries of `m`, each once, in name order.
pub open spec fn rows_hold(rows: Seq<Row>, m: Map<Seq<char>, (Confidence, int)>) -> bool {
    &&& strictly_sorted(row_names(rows))
    &&& forall|i: int| 0 <= i < rows.len() ==> m.contains_key(#[trigger] rows[i].name@)
        && m[rows[i].name@] == (rows[i].confidence, rows[i].at as int)
    &&& forall|n: Seq<char>| m.contains_key(n) ==> exists|i: int| 0 <= i < rows.len() && #[trigger] rows[i].name@ == n
}

fn upsert(
    rows: &mut Vec<Row>,
    name: Vec<char>,
    c: Confidence,
    at: usize,
    replace: bool,
    Ghost(m): Ghost<Map<Seq<char>, (Confidence, int)>>,
)
    requires
        rows_hold(old(rows)@, m),
    ensures
        rows_hold(final(rows)@, merged(m, name@, c, at as int, replace)),
{
    let ghost r0 = rows@;
    let ghost s0 = row_names(rows@);
    let ghost m1 = merged(m, name@, c, at as int, replace);
    let mut p: usize = 0;
    while p < rows.len() && lex_less(rows[p].name.as_slice(), name.as_slice())
        invariant
            p <= rows@.len(),
            r0 == rows@,
            s0 == row_names(rows@),
            rows_hold(r0, m),
            forall|i: int| 0 <= i < p ==> lex_lt(#[trigger] s0[i], name@),
        decreases rows@.len() - p,
    {
        p = p + 1;
    }
    if p < rows.len() && chars_eq(rows[p].name.as_slice(), name.as_slice()) {
        proof {
            assert(s0[p as int] == name@);
            assert(m.contains_key(name@));
        }
        if replace {
            rows[p].confidence = c;
            rows[p].at = at;
        } else {
            let w = rows[p].confidence.weaker(c);
            rows[p].confidence = w;
        }
        proof {
            let r1 = rows@;
            assert(row_names(r1) =~= s0);
            assert forall|i: int| 0 <= i < r1.len() implies m1.contains_key(#[trigger] r1[i].name@)
                && m1[r1[i].name@] == (r1[i].confidence, r1[i].at as int) by {
                if i != p {
                    assert(r1[i] == r0[i]);
                    assert(s0[i] != s0[p as int]) by {
                        if i < p {
                            assert(lex_lt(s0[i], s0[p as int]));
                        } else {
                            assert(lex_lt(s0[p as int], s0[i]));
                        }
                        lemma_lex_irreflexive(s0[i]);
                    }
                }
            }
            assert forall|n: Seq<char>| m1.contains_key(n) implies exists|i: int| 0 <= i < r1.len() && #[trigger] r1[i].name@ == n by {
                if n != name@ {
                    let i = choose|i: int| 0 <= i < r0.len() && #[trigger] r0[i].name@ == n;
                    assert(r1[i].name@ == n);
                } else {
                    assert(r1[p as int].name@ == n);
                }
            }
        }
        return;
    }
    proof {
        if p < rows@.len() {
            lemma_lex_total(s0[p as int], name@);
            assert(lex_lt(name@, s0[p as int]));
        }
        assert(!m.contains_key(name@)) by {
            if m.contains_key(name@) {
                let i = choose|i: int| 0 <= i < r0.len() && #[trigger] r0[i].name@ == name@;
                if i < p {
                    assert(lex_lt(s0[i], name@));
                    lemma_lex_irreflexive(name@);
                } else if i == p {
                } else {
                    assert(lex_lt(s0[p as int], s0[i]));
                    lemma_lex_transitive(name@, s0[p as int], s0[i]);
                    lemma_lex_irreflexive(name@);
                }
            }
        }
    }
    rows.insert(p, Row { name, confidence: c, at });
    proof {
        let r1 = rows@;
        let s1 = row_names(r1);
        assert(s1 =~= s0.insert(p as int, name@));
        assert forall|i: int, j: int| 0 <= i < j < s1.len() implies lex_lt(#[trigger] s1[i], #[trigger] s1[j]) by {
            if j < p {
            } else if j == p {
            } else if i < p {
                if j - 1 > p {
                    lemma_lex_transitive(name@, s0[p as int], s0[j - 1]);
                }
                lemma_lex_transitive(s0[i], name@, s0[j - 1]);
            } else if i == p {
                if j - 1 > p {
                    lemma_lex_transitive(name@, s0[p as int], s0[j - 1]);
                }
            } else {
            }
        }
        assert forall|i: int| 0 <= i < r1.len() implies m1.contains_key(#[trigger] r1[i].name@)
            && m1[r1[i].name@] == (r1[i].confidence, r1[i].at as int) by {
            if i < p {
                assert(r1[i] == r0[i]);
                assert(s0[i] != name@) by {
                    lemma_lex_irreflexive(name@);
                }
            } else if i > p {
                assert(r1[i] == r0[i - 1]);
                assert(s0[i - 1] != name@) by {
                    if i - 1 > p {
                        lemma_lex_transitive(name@, s0[p as int], s0[i - 1]);
                    }
                    lemma_lex_irreflexive(name@);
                }
            }
        }
        assert forall|n: Seq<char>| m1.contains_key(n) implies exists|i: int| 0 <= i < r1.len() && #[trigger] r1[i].name@ == n by {
            if n != name@ {
                let i = choose|i: int| 0 <= i < r0.len() && #[trigger] r0[i].name@ == n;
                if i < p {
                    assert(r1[i].name@ == n);
                } else {
                    assert(r1[i + 1].name@ == n);
                }
            } else {
                assert(r1[p as int].name@ == n);
            }
        }
    }
}

/// The node whose id is `id` (meaningful where there is one).
pub open spec fn node_of(nodes: Seq<Node>, id: Seq<char>) -> Node {
    nodes[choose|i: int| 0 <= i < nodes.len() && nodes[i].id.0@ == id]
}

/// What a report calls a dependent: its node's qualified path, or its bare id where the
/// graph holds no node for it.
pub open spec fn name_of(nodes: Seq<Node>, id: Seq<char>) -> Seq<char> {
    if has_id(nodes, id) {
        node_of(nodes, id).qualified_path@
    } else {
        id
    }
}

/// The direct (or indirect) dependents grouped by name: each name keeps the first
/// dependent found under it and the weakest confidence among all of them.
pub open spec fn bucket(nodes: Seq<Node>, found: Seq<ReachView>, direct: bool) -> Map<Seq<char>, (Confidence, int)>
    decreases found.len(),
{
    if found.len() == 0 {
        Map::empty()
    } else {
        let m = bucket(nodes, found.drop_last(), direct);
        let r = found.last();
        if r.direct == direct {
            merged(m, name_of(nodes, r.id), r.confidence, found.len() - 1, false)
        } else {
            m
        }
    }
}

/// Every entry of a bucket stands for a dependent of the right kind and name.
pub proof fn lemma_bucket(nodes: Seq<Node>, found: Seq<ReachView>, direct: bool)
    ensures
        forall|n: Seq<char>| #[trigger] bucket(nodes, found, direct).contains_key(n) ==> {
            let at = bucket(nodes, found, direct)[n].1;
            &&& 0 <= at < found.len()
            &&& found[at].direct == direct
            &&& name_of(nodes, found[at].id) == n
        },
    decreases found.len(),
{
    if found.len() > 0 {
        lemma_bucket(nodes, found.drop_last(), direct);
    }
}

/// Looks a node up by the text of its id.
fn lookup<'a>(graph: &'a SymbolGraph, id: &String) -> (r: Option<&'a Node>)
    ensures
        match r {
            Some(n) => has_id(graph.nodes_seq(), id@) && *n == node_of(graph.nodes_seq(), id@),
            None => !has_id(graph.nodes_seq(), id@),
        },
{
    let key = NodeId(id.clone());
    let r = graph.node(&key);
    proof {
        use_type_invariant(graph);
        graph.lemma_inv();
        if let Some(n) = r {
            let g = graph.nodes_seq();
            let i = choose|i: int| 0 <= i < g.len() && g[i] == *n && n.id.0@ == id@;
            let j = choose|j: int| 0 <= j < g.len() && g[j].id.0@ == id@;
            assert(g[i].id.0@ == id@);
            assert(i == j);
        }
    }
    r
}

/// The characters of a dependent's name.
fn name_chars(graph: &SymbolGraph, id: &String) -> (v: Vec<char>)
    ensures
        v@ == name_of(graph.nodes_seq(), id@),
{
    match lookup(graph, id) {
        Some(n) => chars_of(n.qualified_path.as_str()),
        None => chars_of(id.as_str()),
    }
}

/// Groups the direct (or indirect) dependents by name, in name order.
fn gather(graph: &SymbolGraph, found: &Vec<Reach>, direct: bool) -> (rows: Vec<Row>)
    ensures
        rows_hold(rows@, bucket(graph.nodes_seq(), reach_views(found@), direct)),
{
    let ghost g = graph.nodes_seq();
    let ghost fv = reach_views(found@);
    let mut rows: Vec<Row> = Vec::new();
    let mut i: usize = 0;
    proof {
        assert(fv.take(0) =~= Seq::<ReachView>::empty());
        assert(row_names(rows@) =~= Seq::<Seq<char>>::empty());
    }
    while i < found.len()
        invariant
            i <= found@.len(),
            g == graph.nodes_seq(),
            fv == reach_views(found@),
            rows_hold(rows@, bucket(g, fv.take(i as int), direct)),
        decreases found@.len() - i,
    {
        proof {
            assert(fv.take(i + 1).drop_last() =~= fv.take(i as int));
            assert(fv.take(i + 1).last() == fv[i as int]);
        }
        if found[i].direct == direct {
            let name = name_chars(graph, &found[i].id);
            upsert(&mut rows, name, found[i].confidence, i, false, Ghost(bucket(g, fv.take(i as int), direct)));
        }
        i = i + 1;
    }
    proof {
        assert(fv.take(found@.len() as int) =~= fv);
    }
    rows
}

/// Discovery positions only ever point back toward the seeds.
pub open spec fn parents_ok(found: Seq<ReachView>) -> bool {
    forall|a: int| 0 <= a < found.len() ==> (#[trigger] found[a].parent matches Some(p) ==> 0 <= p < a)
}

/// The qualified paths of the dependents between the seeds and the one at `i`, nearest
/// the seeds first; a dependent the graph holds no node for is left out.
pub open spec fn via_of(nodes: Seq<Node>, found: Seq<ReachView>, i: int) -> Seq<Seq<char>>
    decreases i,
{
    if 0 <= i < found.len() {
        match found[i].parent {
            Some(p) => if 0 <= p < i {
                let v = via_of(nodes, found, p);
                if has_id(nodes, found[p].id) {
                    v.push(node_of(nodes, found[p].id).qualified_path@)
                } else {
                    v
                }
            } else {
                Seq::empty()
            },
            None => Seq::empty(),
        }
    } else {
        Seq::empty()
    }
}

fn via_paths(graph: &SymbolGraph, found: &Vec<Reach>, i: usize) -> (r: Vec<String>)
    requires
        i < found@.len(),
        parents_ok(reach_views(found@)),
    ensures
        string_views(r@) == via_of(graph.nodes_seq(), reach_views(found@), i as int),
    decreases i,
{
    let ghost fv = reach_views(found@);
    proof {
        assert(fv[i as int].parent == opt_int(found@[i as int].parent));
    }
    match found[i].parent {
        Some(p) => {
            let mut v = via_paths(graph, found, p);
            match lookup(graph, &found[p].id) {
                Some(n) => {
                    let ghost ov = string_views(v@);
                    v.push(n.qualified_path.clone());
                    proof {
                        assert(string_views(v@) =~= ov.push(n.qualified_path@));
                    }
                },
                None => {},
            }
            v
        },
        None => {
            let v: Vec<String> = Vec::new();
            proof {
                assert(string_views(v@) =~= Seq::<Seq<char>>::empty());
            }
            v
        },
    }
}

/// One dependent of a blast-radius report.
#[derive(Debug)]
pub struct Dependent {
    pub path: String,
    /// File the dependent is declared in, relative to the project root — `""` if the
    /// graph has no node for it.
    pub file: String,
    /// 1-indexed declaration line, matching `file` — `0` alongside an empty `file`.
    pub line: usize,
    /// The weakest link of the chain that reached it.
    pub confidence: Confidence,
    /// The dependents between the seeds and this one, nearest the seeds first.
    pub via: Vec<String>,
}

pub struct DependentView {
    pub path: Seq<char>,
    pub file: Seq<char>,
    pub line: int,
    pub confidence: Confidence,
    pub via: Seq<Seq<char>>,
}

impl View for Dependent {
    type V = DependentView;

    open spec fn view(&self) -> DependentView {
        DependentView {
            path: self.path@,
            file: self.file@,
            line: self.line as int,
            confidence: self.confidence,
            via: string_views(self.via@),
        }
    }
}

/// The report entry for the dependent at `at`, named `name`, with confidence `c`.
pub open spec fn dependent_at(nodes: Seq<Node>, found: Seq<ReachView>, name: Seq<char>, c: Confidence, at: int) -> DependentView {
    let known = has_id(nodes, found[at].id);
    DependentView {
        path: name,
        file: if known { node_of(nodes, found[at].id).file@ } else { Seq::empty() },
        line: if known { node_of(nodes, found[at].id).line as int } else { 0 },
        confidence: c,
        via: via_of(nodes, found, at),
    }
}

pub open spec fn dependent_paths(ds: Seq<Dependent>) -> Seq<Seq<char>> {
    ds.map_values(|d: Dependent| d.path@)
}

/// `ds` lists one entry per name of `m`, in name order, each built from its dependent.
pub open spec fn section_holds(
    ds: Seq<Dependent>,
    m: Map<Seq<char>, (Confidence, int)>,
    nodes: Seq<Node>,
    found: Seq<ReachView>,
) -> bool {
    &&& strictly_sorted(dependent_paths(ds))
    &&& forall|i: int| 0 <= i < ds.len() ==> m.contains_key(#[trigger] ds[i].path@)
        && ds[i]@ == dependent_at(nodes, found, ds[i].path@, m[ds[i].path@].0, m[ds[i].path@].1)
    &&& forall|n: Seq<char>| m.contains_key(n) ==> exists|i: int| 0 <= i < ds.len() && #[trigger] ds[i].path@ == n
}

/// Turns gathered rows into report entries.
fn to_dependents(graph: &SymbolGraph, found: &Vec<Reach>, rows: &Vec<Row>, Ghost(m): Ghost<Map<Seq<char>, (Confidence, int)>>) -> (ds: Vec<Dependent>)
    requires
        rows_hold(rows@, m),
        parents_ok(reach_views(found@)),
        forall|n: Seq<char>| #[trigger] m.contains_key(n) ==> 0 <= m[n].1 < found@.len(),
    ensures
        section_holds(ds@, m, graph.nodes_seq(), reach_views(found@)),
{
    let ghost g = graph.nodes_seq();
    let ghost fv = reach_views(found@);
    let mut ds: Vec<Dependent> = Vec::new();
    let mut i: usize = 0;
    while i < rows.len()
        invariant
            i <= rows@.len(),
            g == graph.nodes_seq(),
            fv == reach_views(found@),
            rows_hold(rows@, m),
            parents_ok(fv),
            forall|n: Seq<char>| #[trigger] m.contains_key(n) ==> 0 <= m[n].1 < found@.len(),
            ds@.len() == i,
            forall|k: int| 0 <= k < i ==> #[trigger] ds@[k].path@ == rows@[k].name@
                && ds@[k]@ == dependent_at(g, fv, rows@[k].name@, rows@[k].confidence, rows@[k].at as int),
        decreases rows@.len() - i,
    {
        let row = &rows[i];
        proof {
            assert(m.contains_key(rows@[i as int].name@));
        }
        let at = row.at;
        let id = &found[at].id;
        let (file, line) = match lookup(graph, id) {
            Some(n) => (n.file.clone(), n.line),
            None => (String::new(), 0),
        };
        let via = via_paths(graph, found, at);
        let ghost before = ds@;
        ds.push(Dependent { path: string_of(row.name.as_slice()), file, line, confidence: row.confidence, via });
        proof {
            assert(fv[at as int].id == found@[at as int].id@);
            let d = ds@[i as int];
            assert(d@.file == dependent_at(g, fv, rows@[i as int].name@, row.confidence, at as int).file);
            assert(d@ == dependent_at(g, fv, rows@[i as int].name@, row.confidence, at as int));
            assert forall|k: int| 0 <= k < i + 1 implies #[trigger] ds@[k].path@ == rows@[k].name@
                && ds@[k]@ == dependent_at(g, fv, rows@[k].name@, rows@[k].confidence, rows@[k].at as int) by {
                if k < i {
                    assert(ds@[k] == before[k]);
                    assert(before[k].path@ == rows@[k].name@);
                }
            }
        }
        i = i + 1;
    }
    proof {
        let names = row_names(rows@);
        assert(dependent_paths(ds@) =~= names);
        assert forall|n: Seq<char>| m.contains_key(n) implies exists|k: int| 0 <= k < ds@.len() && #[trigger] ds@[k].path@ == n by {
            let k = choose|k: int| 0 <= k < rows@.len() && #[trigger] rows@[k].name@ == n;
            assert(ds@[k].path@ == n);
        }
    }
    ds
}

/// Edges by which a symbol touches a contract.
pub open spec fn touches_contract(k: EdgeKind) -> bool {
    match k {
        EdgeKind::Produces => true,
        EdgeKind::Consumes => true,
        EdgeKind::Reads => true,
        EdgeKind::Writes => true,
        _ => false,
    }
}

/// The edge at `k` runs from a visited symbol to a contract of kind `kind` named `p`.
pub open spec fn contract_hit(
    nodes: Seq<Node>,
    edges: Seq<Edge>,
    visited: Set<Seq<char>>,
    kind: ContractKind,
    k: int,
    p: Seq<char>,
) -> bool {
    &&& touches_contract(edges[k].kind)
    &&& visited.contains(edges[k].from.0@)
    &&& has_id(nodes, edges[k].to.0@)
    &&& node_of(nodes, edges[k].to.0@).kind == NodeKind::Contract(kind)
    &&& node_of(nodes, edges[k].to.0@).qualified_path@ == p
}

/// Names of the contracts of kind `kind` that the first `n` edges connect to the visited
/// symbols.
pub open spec fn contract_names(
    nodes: Seq<Node>,
    edges: Seq<Edge>,
    visited: Set<Seq<char>>,
    kind: ContractKind,
    n: int,
) -> Set<Seq<char>> {
    Set::new(|p: Seq<char>| exists|k: int| 0 <= k < n && #[trigger] contract_hit(nodes, edges, visited, kind, k, p))
}

/// `v` lists the members of `s`, once each, in name order.
pub open spec fn sorted_set_of(v: Seq<Seq<char>>, s: Set<Seq<char>>) -> bool {
    strictly_sorted(v) && v.to_set() == s
}

fn touches(k: EdgeKind) -> (b: bool)
    ensures
        b == touches_contract(k),
{
    match k {
        EdgeKind::Produces => true,
        EdgeKind::Consumes => true,
        EdgeKind::Reads => true,
        EdgeKind::Writes => true,
        _ => false,
    }
}

fn to_strings(v: &Vec<Vec<char>>) -> (r: Vec<String>)
    ensures
        string_views(r@) == char_views(v@),
{
    let mut r: Vec<String> = Vec::new();
    let mut i: usize = 0;
    while i < v.len()
        invariant
            i <= v@.len(),
            string_views(r@) == char_views(v@).take(i as int),
        decreases v@.len() - i,
    {
        let ghost o = string_views(r@);
        r.push(string_of(v[i].as_slice()));
        proof {
            assert(string_views(r@) =~= o.push(v@[i as int]@));
            assert(char_views(v@).take(i + 1) =~= char_views(v@).take(i as int).push(v@[i as int]@));
        }
        i = i + 1;
    }
    proof {
        assert(char_views(v@).take(v@.len() as int) =~= char_views(v@));
    }
    r
}

/// The API routes, events and tables the visited symbols touch, each list in name order.
fn contracts_touched(graph: &SymbolGraph, visited: &StringHashSet) -> (r: (Vec<String>, Vec<String>, Vec<String>))
    ensures
        sorted_set_of(string_views(r.0@), contract_names(graph.nodes_seq(), graph.edges_seq(), visited@, ContractKind::ApiRoute, graph.edges_seq().len() as int)),
        sorted_set_of(string_views(r.1@), contract_names(graph.nodes_seq(), graph.edges_seq(), visited@, ContractKind::Event, graph.edges_seq().len() as int)),
        sorted_set_of(string_views(r.2@), contract_names(graph.nodes_seq(), graph.edges_seq(), visited@, ContractKind::Table, graph.edges_seq().len() as int)),
{
    let ghost g = graph.nodes_seq();
    let ghost e = graph.edges_seq();
    let ghost vis = visited@;
    let edges = graph.edges();
    let mut api: Vec<Vec<char>> = Vec::new();
    let mut events: Vec<Vec<char>> = Vec::new();
    let mut tables: Vec<Vec<char>> = Vec::new();
    let mut k: usize = 0;
    proof {
        assert(char_views(api@).to_set() =~= contract_names(g, e, vis, ContractKind::ApiRoute, 0));
        assert(char_views(events@).to_set() =~= contract_names(g, e, vis, ContractKind::Event, 0));
        assert(char_views(tables@).to_set() =~= contract_names(g, e, vis, ContractKind::Table, 0));
    }
    while k < edges.len()
        invariant
            k <= e.len(),
            g == graph.nodes_seq(),
            e == graph.edges_seq(),
            edges@ == e,
            vis == visited@,
            strictly_sorted(char_views(api@)),
            strictly_sorted(char_views(events@)),
            strictly_sorted(char_views(tables@)),
            char_views(api@).to_set() == contract_names(g, e, vis, ContractKind::ApiRoute, k as int),
            char_views(events@).to_set() == contract_names(g, e, vis, ContractKind::Event, k as int),
            char_views(tables@).to_set() == contract_names(g, e, vis, ContractKind::Table, k as int),
        decreases e.len() - k,
    {
        let edge = &edges[k];
        let ghost before = |kind: ContractKind| contract_names(g, e, vis, kind, k as int);
        let ghost after = |kind: ContractKind| contract_names(g, e, vis, kind, k + 1);
        let mut hit: Option<(ContractKind, Vec<char>)> = None;
        if touches(edge.kind) && visited.contains(edge.from.0.as_str()) {
            match lookup(graph, &edge.to.0) {
                Some(n) => match n.kind {
                    NodeKind::Contract(ck) => {
                        hit = Some((ck, chars_of(n.qualified_path.as_str())));
                    },
                    _ => {},
                },
                None => {},
            }
        }
        proof {
            assert forall|kind: ContractKind| #[trigger] after(kind) == match hit {
                Some((ck, name)) => if ck == kind { before(kind).insert(name@) } else { before(kind) },
                None => before(kind),
            } by {
                let want = match hit {
                    Some((ck, name)) => if ck == kind { before(kind).insert(name@) } else { before(kind) },
                    None => before(kind),
                };
                assert forall|p: Seq<char>| after(kind).contains(p) <==> want.contains(p) by {
                    if after(kind).contains(p) {
                        let j = choose|j: int| 0 <= j < k + 1 && #[trigger] contract_hit(g, e, vis, kind, j, p);
                        if j < k {
                            assert(before(kind).contains(p));
                        }
                    }
                    if before(kind).contains(p) {
                        let j = choose|j: int| 0 <= j < k && #[trigger] contract_hit(g, e, vis, kind, j, p);
                        assert(contract_hit(g, e, vis, kind, j, p));
                    }
                    match hit {
                        Some((ck, name)) => {
                            if ck == kind && p == name@ {
                                assert(contract_hit(g, e, vis, kind, k as int, p));
                            }
                        },
                        None => {},
                    }
                }
                assert(after(kind) =~= want);
            }
        }
        match hit {
            Some((ContractKind::ApiRoute, name)) => insert_sorted(&mut api, name),
            Some((ContractKind::Event, name)) => insert_sorted(&mut events, name),
            Some((ContractKind::Table, name)) => insert_sorted(&mut tables, name),
            _ => {},
        }
        proof {
            assert(after(ContractKind::ApiRoute) == contract_names(g, e, vis, ContractKind::ApiRoute, k + 1));
            assert(after(ContractKind::Event) == contract_names(g, e, vis, ContractKind::Event, k + 1));
            assert(after(ContractKind::Table) == contract_names(g, e, vis, ContractKind::Table, k + 1));
        }
        k = k + 1;
    }
    (to_strings(&api), to_strings(&events), to_strings(&tables))
}

/// The dependent at `at` is a test.
pub open spec fn is_test_at(nodes: Seq<Node>, found: Seq<ReachView>, at: int) -> bool {
    has_id(nodes, found[at].id) && node_of(nodes, found[at].id).is_test
}

/// The entries of `m` that stand for tests.
pub open spec fn tests_in(nodes: Seq<Node>, found: Seq<ReachView>, m: Map<Seq<char>, (Confidence, int)>) -> Map<Seq<char>, (Confidence, int)> {
    Map::new(|n: Seq<char>| m.contains_key(n) && is_test_at(nodes, found, m[n].1), |n: Seq<char>| m[n])
}

/// The tests among the dependents, by name; where a name is both a direct and an
/// indirect test, the indirect one stands.
pub open spec fn affected(nodes: Seq<Node>, found: Seq<ReachView>) -> Map<Seq<char>, (Confidence, int)> {
    tests_in(nodes, found, bucket(nodes, found, true)).union_prefer_right(tests_in(nodes, found, bucket(nodes, found, false)))
}

/// The entries of `m` whose names stand among the first `j` rows.
pub open spec fn upto(m: Map<Seq<char>, (Confidence, int)>, rows: Seq<Row>, j: int) -> Map<Seq<char>, (Confidence, int)> {
    Map::new(
        |n: Seq<char>| m.contains_key(n) && exists|q: int| 0 <= q < j && #[trigger] rows[q].name@ == n,
        |n: Seq<char>| m[n],
    )
}

/// Adds the tests among `rows` (which list `m`) to `trows`, a later entry replacing an
/// earlier one of the same name.
fn add_tests(
    graph: &SymbolGraph,
    found: &Vec<Reach>,
    rows: &Vec<Row>,
    trows: &mut Vec<Row>,
    Ghost(m): Ghost<Map<Seq<char>, (Confidence, int)>>,
    Ghost(base): Ghost<Map<Seq<char>, (Confidence, int)>>,
)
    requires
        rows_hold(rows@, m),
        rows_hold(old(trows)@, base),
        forall|n: Seq<char>| #[trigger] m.contains_key(n) ==> 0 <= m[n].1 < found@.len(),
    ensures
        rows_hold(final(trows)@, base.union_prefer_right(tests_in(graph.nodes_seq(), reach_views(found@), m))),
{
    let ghost g = graph.nodes_seq();
    let ghost fv = reach_views(found@);
    let mut j: usize = 0;
    proof {
        assert(base.union_prefer_right(tests_in(g, fv, upto(m, rows@, 0))) =~= base);
    }
    while j < rows.len()
        invariant
            j <= rows@.len(),
            g == graph.nodes_seq(),
            fv == reach_views(found@),
            rows_hold(rows@, m),
            forall|n: Seq<char>| #[trigger] m.contains_key(n) ==> 0 <= m[n].1 < found@.len(),
            rows_hold(trows@, base.union_prefer_right(tests_in(g, fv, upto(m, rows@, j as int)))),
        decreases rows@.len() - j,
    {
        let ghost cur = base.union_prefer_right(tests_in(g, fv, upto(m, rows@, j as int)));
        let ghost nj = rows@[j as int].name@;
        proof {
            assert(m.contains_key(nj));
            assert(upto(m, rows@, j + 1) =~= upto(m, rows@, j as int).insert(nj, m[nj])) by {
                assert forall|n: Seq<char>| upto(m, rows@, j + 1).contains_key(n) <==> upto(m, rows@, j as int).insert(nj, m[nj]).contains_key(n) by {
                    if n != nj && upto(m, rows@, j + 1).contains_key(n) {
                        let q = choose|q: int| 0 <= q < j + 1 && #[trigger] rows@[q].name@ == n;
                        assert(q != j);
                    }
                    if n == nj {
                        assert(rows@[j as int].name@ == n);
                    }
                }
            }
            assert(!upto(m, rows@, j as int).contains_key(nj)) by {
                if upto(m, rows@, j as int).contains_key(nj) {
                    let q = choose|q: int| 0 <= q < j && #[trigger] rows@[q].name@ == nj;
                    assert(lex_lt(row_names(rows@)[q], row_names(rows@)[j as int]));
                    lemma_lex_irreflexive(nj);
                }
            }
        }
        let row = &rows[j];
        let at = row.at;
        let is_test = match lookup(graph, &found[at].id) {
            Some(n) => n.is_test,
            None => false,
        };
        proof {
            assert(fv[at as int].id == found@[at as int].id@);
            assert(is_test == is_test_at(g, fv, at as int));
        }
        if is_test {
            let name = slice_chars(row.name.as_slice(), 0, row.name.len());
            proof {
                assert(name@ =~= nj);
                assert(merged(cur, nj, row.confidence, at as int, true) =~= base.union_prefer_right(tests_in(g, fv, upto(m, rows@, j + 1))));
            }
            upsert(trows, name, row.confidence, at, true, Ghost(cur));
        } else {
            proof {
                assert(cur =~= base.union_prefer_right(tests_in(g, fv, upto(m, rows@, j + 1))));
            }
        }
        j = j + 1;
    }
    proof {
        assert(upto(m, rows@, rows@.len() as int) =~= m) by {
            assert forall|n: Seq<char>| m.contains_key(n) implies upto(m, rows@, rows@.len() as int).contains_key(n) by {
                let q = choose|q: int| 0 <= q < rows@.len() && #[trigger] rows@[q].name@ == n;
            }
        }
    }
}

/// The blast radius of a change: who is affected directly, who transitively through
/// them, which API routes, event types and database tables the affected symbols touch,
/// and which tests exercise any of it. Every list is in name order, so the same graph
/// always produces the same report.
#[derive(Debug)]
pub struct ImpactReport {
    pub direct: Vec<Dependent>,
    pub indirect: Vec<Dependent>,
    pub api: Vec<String>,
    pub events: Vec<String>,
    pub database: Vec<String>,
    /// How many of the dependents found are tests (the length of `affected_tests`).
    pub tests: usize,
    /// The test dependents themselves, so a caller can run exactly these.
    pub affected_tests: Vec<Dependent>,
}

/// `r` is the report of the blast radius of `seeds`.
pub open spec fn report_holds(nodes: Seq<Node>, edges: Seq<Edge>, seeds: Seq<Seq<char>>, r: ImpactReport) -> bool {
    let visited = reached(edges, seeds).0;
    let found = reached(edges, seeds).1;
    &&& section_holds(r.direct@, bucket(nodes, found, true), nodes, found)
    &&& section_holds(r.indirect@, bucket(nodes, found, false), nodes, found)
    &&& sorted_set_of(string_views(r.api@), contract_names(nodes, edges, visited, ContractKind::ApiRoute, edges.len() as int))
    &&& sorted_set_of(string_views(r.events@), contract_names(nodes, edges, visited, ContractKind::Event, edges.len() as int))
    &&& sorted_set_of(string_views(r.database@), contract_names(nodes, edges, visited, ContractKind::Table, edges.len() as int))
    &&& section_holds(r.affected_tests@, affected(nodes, found), nodes, found)
    &&& r.tests == r.affected_tests@.len()
}

/// The blast radius of `seeds`: walks backward over calls, references and contract
/// edges from the seeds, then gathers the report.
fn compute_impact(graph: &SymbolGraph, seeds: &[String]) -> (r: ImpactReport)
    ensures
        report_holds(graph.nodes_seq(), graph.edges_seq(), string_views(seeds@), r),
{
    let ghost g = graph.nodes_seq();
    let (visited, found) = walk(graph.edges(), seeds);
    let ghost fv = reach_views(found@);
    let drows = gather(graph, &found, true);
    let irows = gather(graph, &found, false);
    let ghost dm = bucket(g, fv, true);
    let ghost im = bucket(g, fv, false);
    proof {
        lemma_bucket(g, fv, true);
        lemma_bucket(g, fv, false);
        assert forall|a: int| 0 <= a < fv.len() implies (#[trigger] fv[a].parent matches Some(p) ==> 0 <= p < a) by {
            assert(0 <= fv[a].edge);
        }
    }
    let direct = to_dependents(graph, &found, &drows, Ghost(dm));
    let indirect = to_dependents(graph, &found, &irows, Ghost(im));
    let (api, events, database) = contracts_touched(graph, &visited);
    let mut trows: Vec<Row> = Vec::new();
    proof {
        assert(row_names(trows@) =~= Seq::<Seq<char>>::empty());
    }
    add_tests(graph, &found, &drows, &mut trows, Ghost(dm), Ghost(Map::empty()));
    proof {
        assert(Map::<Seq<char>, (Confidence, int)>::empty().union_prefer_right(tests_in(g, fv, dm)) =~= tests_in(g, fv, dm));
    }
    add_tests(graph, &found, &irows, &mut trows, Ghost(im), Ghost(tests_in(g, fv, dm)));
    let affected_tests = to_dependents(graph, &found, &trows, Ghost(affected(g, fv)));
    ImpactReport { direct, indirect, api, events, database, tests: affected_tests.len(), affected_tests }
}

/// The ids of the nodes declared in `file`, in graph order.
pub open spec fn file_seeds(nodes: Seq<Node>, file: Seq<char>) -> Seq<Seq<char>> {
    ids_at(nodes, select(nodes.len(), |i: int| nodes[i].file@ == file))
}

/// File-mode query: the blast radius of every symbol declared in `file`.
pub fn compute_file_impact(graph: &SymbolGraph, file: &str) -> (r: ImpactReport)
    ensures
        report_holds(graph.nodes_seq(), graph.edges_seq(), file_seeds(graph.nodes_seq(), file@), r),
{
    let nodes = graph.nodes();
    let ghost g = graph.nodes_seq();
    let ghost p = |i: int| g[i].file@ == file@;
    let mut seeds: Vec<String> = Vec::new();
    let mut i: usize = 0;
    proof {
        assert(string_views(seeds@) =~= ids_at(g, select(0, p)));
    }
    while i < nodes.len()
        invariant
            i <= g.len(),
            nodes@ == g,
            p == (|i: int| g[i].file@ == file@),
            string_views(seeds@) == ids_at(g, select(i as nat, p)),
        decreases g.len() - i,
    {
        let ghost o = string_views(seeds@);
        if str_eq(nodes[i].file.as_str(), file) {
            seeds.push(nodes[i].id.0.clone());
            proof {
                assert(string_views(seeds@) =~= o.push(g[i as int].id.0@));
                assert(ids_at(g, select(i as nat + 1, p)) =~= ids_at(g, select(i as nat, p)).push(g[i as int].id.0@));
            }
        }
        i = i + 1;
    }
    compute_impact(graph, seeds.as_slice())
}

/// Symbol-mode query: the blast radius of one path, seeded by the same tiered resolution
/// as call-site linking (see `Resolver`). `None` when the path resolves to nothing in the
/// graph.
pub fn compute_symbol_impact(graph: &SymbolGraph, path: &str) -> (r: Option<ImpactReport>)
    ensures
        match resolve_spec(graph.nodes_seq(), all_admitted(graph.nodes_seq().len()), path@) {
            Some((idx, _)) => r matches Some(rep) && report_holds(
                graph.nodes_seq(),
                graph.edges_seq(),
                ids_at(graph.nodes_seq(), idx),
                rep,
            ),
            None => r is None,
        },
{
    let resolver = Resolver::build(graph);
    proof {
        assert(resolver.mask() =~= all_admitted(graph.nodes_seq().len()));
    }
    match resolver.resolve(path) {
        Some((ids, _confidence)) => {
            let mut seeds: Vec<String> = Vec::new();
            let mut i: usize = 0;
            while i < ids.len()
                invariant
                    i <= ids@.len(),
                    string_views(seeds@) == id_views(ids@).take(i as int),
                decreases ids@.len() - i,
            {
                let ghost o = string_views(seeds@);
                seeds.push(ids[i].0.clone());
                proof {
                    assert(string_views(seeds@) =~= o.push(ids@[i as int].0@));
                    assert(id_views(ids@).take(i + 1) =~= id_views(ids@).take(i as int).push(ids@[i as int].0@));
                }
                i = i + 1;
            }
            proof {
                assert(id_views(ids@).take(ids@.len() as int) =~= id_views(ids@));
            }
            Some(compute_impact(graph, seeds.as_slice()))
        },
        None => None,
    }
}

pub struct ImpactReportView {
    pub direct: Seq<DependentView>,
    pub indirect: Seq<DependentView>,
    pub api: Seq<Seq<char>>,
    pub events: Seq<Seq<char>>,
    pub database: Seq<Seq<char>>,
    pub tests: int,
    pub affected_tests: Seq<DependentView>,
}

pub open spec fn dependent_views(ds: Seq<Dependent>) -> Seq<DependentView> {
    ds.map_values(|d: Dependent| d@)
}

impl View for ImpactReport {
    type V = ImpactReportView;

    open spec fn view(&self) -> ImpactReportView {
        ImpactReportView {
            direct: dependent_views(self.direct@),
            indirect: dependent_views(self.indirect@),
            api: string_views(self.api@),
            events: string_views(self.events@),
            database: string_views(self.database@),
            tests: self.tests as int,
            affected_tests: dependent_views(self.affected_tests@),
        }
    }
}

/// The entries of `ds` whose confidence is at least `min`, in order.
pub open spec fn at_least_of(ds: Seq<DependentView>, min: Confidence) -> Seq<DependentView>
    decreases ds.len(),
{
    if ds.len() == 0 {
        Seq::empty()
    } else {
        let r = at_least_of(ds.drop_last(), min);
        if rank(ds.last().confidence) >= rank(min) {
            r.push(ds.last())
        } else {
            r
        }
    }
}

fn copy_strings(v: &Vec<String>) -> (r: Vec<String>)
    ensures
        r@ == v@,
{
    let mut r: Vec<String> = Vec::new();
    let mut i: usize = 0;
    while i < v.len()
        invariant
            i <= v@.len(),
            r@ == v@.take(i as int),
        decreases v@.len() - i,
    {
        r.push(v[i].clone());
        proof {
            assert(r@ =~= v@.take(i + 1));
        }
        i = i + 1;
    }
    proof {
        assert(v@.take(v@.len() as int) =~= v@);
    }
    r
}

fn keep_at_least(ds: &Vec<Dependent>, min: Confidence) -> (r: Vec<Dependent>)
    ensures
        dependent_views(r@) == at_least_of(dependent_views(ds@), min),
{
    let ghost dv = dependent_views(ds@);
    let mut r: Vec<Dependent> = Vec::new();
    let mut i: usize = 0;
    proof {
        assert(dependent_views(r@) =~= at_least_of(dv.take(0), min));
    }
    while i < ds.len()
        invariant
            i <= ds@.len(),
            dv == dependent_views(ds@),
            dependent_views(r@) == at_least_of(dv.take(i as int), min),
        decreases ds@.len() - i,
    {
        proof {
            assert(dv.take(i + 1).drop_last() =~= dv.take(i as int));
            assert(dv.take(i + 1).last() == ds@[i as int]@);
        }
        let d = &ds[i];
        if d.confidence.at_least(min) {
            let ghost o = dependent_views(r@);
            r.push(Dependent {
                path: d.path.clone(),
                file: d.file.clone(),
                line: d.line,
                confidence: d.confidence,
                via: copy_strings(&d.via),
            });
            proof {
                assert(dependent_views(r@) =~= o.push(ds@[i as int]@));
            }
        }
        i = i + 1;
    }
    proof {
        assert(dv.take(ds@.len() as int) =~= dv);
    }
    r
}

/// Drops the dependents (direct, indirect and tests) below `min` confidence and recounts
/// the tests; the contract lists carry no confidence and stay as they are.
pub fn filter_min_confidence(report: ImpactReport, min: Confidence) -> (r: ImpactReport)
    ensures
        r@ == (ImpactReportView {
            direct: at_least_of(report@.direct, min),
            indirect: at_least_of(report@.indirect, min),
            affected_tests: at_least_of(report@.affected_tests, min),
            tests: at_least_of(report@.affected_tests, min).len() as int,
            ..report@
        }),
{
    let direct = keep_at_least(&report.direct, min);
    let indirect = keep_at_least(&report.indirect, min);
    let affected_tests = keep_at_least(&report.affected_tests, min);
    let tests = affected_tests.len();
    proof {
        assert(dependent_views(affected_tests@).len() == affected_tests@.len());
    }
    ImpactReport {
        direct,
        indirect,
        api: report.api,
        events: report.events,
        database: report.database,
        tests,
        affected_tests,
    }
}

/// The same dependents with their `via` chains emptied.
pub open spec fn without_via(ds: Seq<DependentView>) -> Seq<DependentView> {
    ds.map_values(|d: DependentView| DependentView { via: Seq::empty(), ..d })
}

fn clear_via(ds: &mut Vec<Dependent>)
    ensures
        dependent_views(final(ds)@) == without_via(dependent_views(old(ds)@)),
{
    let ghost d0 = dependent_views(ds@);
    let mut i: usize = 0;
    while i < ds.len()
        invariant
            i <= ds@.len(),
            d0.len() == ds@.len(),
            forall|k: int| 0 <= k < i ==> #[trigger] dependent_views(ds@)[k] == without_via(d0)[k],
            forall|k: int| i <= k < ds@.len() ==> #[trigger] dependent_views(ds@)[k] == d0[k],
        decreases ds@.len() - i,
    {
        let ghost before = ds@;
        ds[i].via = Vec::new();
        proof {
            assert(string_views(ds@[i as int].via@) =~= Seq::<Seq<char>>::empty());
            assert(ds@.len() == before.len());
            assert(dependent_views(before)[i as int] == d0[i as int]);
            assert(ds@[i as int].path == before[i as int].path);
            assert(ds@[i as int].file == before[i as int].file);
            assert(ds@[i as int].line == before[i as int].line);
            assert(ds@[i as int].confidence == before[i as int].confidence);
            assert(dependent_views(ds@)[i as int] == without_via(d0)[i as int]);
            assert forall|k: int| 0 <= k < ds@.len() && k != i implies ds@[k] == before[k] by {}
            assert forall|k: int| 0 <= k < i + 1 implies #[trigger] dependent_views(ds@)[k] == without_via(d0)[k] by {
                if k < i {
                    assert(ds@[k] == before[k]);
                    assert(dependent_views(before)[k] == without_via(d0)[k]);
                }
            }
            assert forall|k: int| i + 1 <= k < ds@.len() implies #[trigger] dependent_views(ds@)[k] == d0[k] by {
                assert(ds@[k] == before[k]);
                assert(dependent_views(before)[k] == d0[k]);
            }
        }
        i = i + 1;
    }
    proof {
        assert(dependent_views(ds@) =~= without_via(d0));
    }
}

/// Keeps the `via` chains when `explain` is set and empties them otherwise, so a default
/// report stays compact.
pub fn apply_explain(report: ImpactReport, explain: bool) -> (r: ImpactReport)
    ensures
        r@ == if explain {
            report@
        } else {
            ImpactReportView {
                direct: without_via(report@.direct),
                indirect: without_via(report@.indirect),
                affected_tests: without_via(report@.affected_tests),
                ..report@
            }
        },
{
    let mut report = report;
    if !explain {
        clear_via(&mut report.direct);
        clear_via(&mut report.indirect);
        clear_via(&mut report.affected_tests);
    }
    report
}

/// Change-mode query: the blast radius of the path a change resolves against (see
/// `ChangeSpec::target_path`).
pub fn compute_change_impact(graph: &SymbolGraph, spec: &ChangeSpec) -> (r: Option<ImpactReport>)
    ensures
        match resolve_spec(graph.nodes_seq(), all_admitted(graph.nodes_seq().len()), target_of(spec@)) {
            Some((idx, _)) => r matches Some(rep) && report_holds(
                graph.nodes_seq(),
                graph.edges_seq(),
                ids_at(graph.nodes_seq(), idx),
                rep,
            ),
            None => r is None,
        },
{
    let target = spec.target_path();
    compute_symbol_impact(graph, target.as_str())
}

/// A symbol's span `[line, max(end_line, line)]` overlaps the half-open range `lo..hi`.
pub open spec fn overlaps(n: Node, lo: int, hi: int) -> bool {
    let span_end: int = if n.end_line >= n.line { n.end_line as int } else { n.line as int };
    (n.line as int) < hi && lo <= span_end
}

/// The non-module symbols of file `f` whose spans overlap `lo..hi`, in graph order.
pub open spec fn range_seeds(nodes: Seq<Node>, f: Seq<char>, lo: int, hi: int) -> Seq<Seq<char>> {
    ids_at(nodes, select(nodes.len(), seed_at(nodes, f, lo, hi)))
}

/// Whether the node at a position is a non-module symbol of file `f` overlapping `lo..hi`.
pub open spec fn seed_at(nodes: Seq<Node>, f: Seq<char>, lo: int, hi: int) -> spec_fn(int) -> bool {
    |i: int| nodes[i].file@ == f && !(nodes[i].kind is Module) && overlaps(nodes[i], lo, hi)
}

pub open spec fn file_range_seeds(nodes: Seq<Node>, f: Seq<char>, rs: Seq<(int, int)>) -> Seq<Seq<char>>
    decreases rs.len(),
{
    if rs.len() == 0 {
        Seq::empty()
    } else {
        file_range_seeds(nodes, f, rs.drop_last()) + range_seeds(nodes, f, rs.last().0, rs.last().1)
    }
}

/// Every symbol a diff's touched ranges fall inside, file by file, range by range.
pub open spec fn diff_seeds(nodes: Seq<Node>, files: Seq<(Seq<char>, Seq<(int, int)>)>) -> Seq<Seq<char>>
    decreases files.len(),
{
    if files.len() == 0 {
        Seq::empty()
    } else {
        diff_seeds(nodes, files.drop_last()) + file_range_seeds(nodes, files.last().0, files.last().1)
    }
}

fn push_range_seeds(graph: &SymbolGraph, f: &String, lo: usize, hi: usize, out: &mut Vec<String>)
    ensures
        string_views(final(out)@) == string_views(old(out)@) + range_seeds(graph.nodes_seq(), f@, lo as int, hi as int),
{
    let nodes = graph.nodes();
    let ghost g = graph.nodes_seq();
    let ghost p = seed_at(g, f@, lo as int, hi as int);
    let ghost o = string_views(out@);
    let mut i: usize = 0;
    proof {
        assert(o + ids_at(g, select(0, p)) =~= o);
    }
    while i < nodes.len()
        invariant
            i <= g.len(),
            nodes@ == g,
            p == seed_at(g, f@, lo as int, hi as int),
            string_views(out@) == o + ids_at(g, select(i as nat, p)),
        decreases g.len() - i,
    {
        let n = &nodes[i];
        let is_module = match n.kind {
            NodeKind::Module => true,
            _ => false,
        };
        let span_end = if n.end_line >= n.line { n.end_line } else { n.line };
        if str_eq(n.file.as_str(), f.as_str()) && !is_module && n.line < hi && lo <= span_end {
            let ghost before = string_views(out@);
            out.push(n.id.0.clone());
            proof {
                assert(string_views(out@) =~= before.push(g[i as int].id.0@));
                assert(ids_at(g, select(i as nat + 1, p)) =~= ids_at(g, select(i as nat, p)).push(g[i as int].id.0@));
            }
        }
        i = i + 1;
    }
}

/// Diff-mode query: the blast radius of every symbol whose `[line, end_line]` span
/// overlaps a touched range, across every file the diff names.
pub fn compute_diff_impact(graph: &SymbolGraph, touches: &DiffTouches) -> (r: ImpactReport)
    ensures
        report_holds(graph.nodes_seq(), graph.edges_seq(), diff_seeds(graph.nodes_seq(), touches@), r),
{
    let ghost g = graph.nodes_seq();
    let ghost tv = touches@;
    let mut seeds: Vec<String> = Vec::new();
    let mut fi: usize = 0;
    proof {
        assert(string_views(seeds@) =~= diff_seeds(g, tv.take(0)));
    }
    while fi < touches.files.len()
        invariant
            fi <= tv.len(),
            tv == touches@,
            g == graph.nodes_seq(),
            string_views(seeds@) == diff_seeds(g, tv.take(fi as int)),
        decreases tv.len() - fi,
    {
        let file = &touches.files[fi].0;
        let ranges = &touches.files[fi].1;
        let ghost base = string_views(seeds@);
        let ghost rv = range_views(ranges@);
        proof {
            assert(tv[fi as int] == (file@, rv));
            assert(base + file_range_seeds(g, file@, rv.take(0)) =~= base);
        }
        let mut ri: usize = 0;
        while ri < ranges.len()
            invariant
                ri <= rv.len(),
                rv == range_views(ranges@),
                g == graph.nodes_seq(),
                string_views(seeds@) == base + file_range_seeds(g, file@, rv.take(ri as int)),
            decreases rv.len() - ri,
        {
            let lo = ranges[ri].start;
            let hi = ranges[ri].end;
            proof {
                assert(rv.take(ri + 1).drop_last() =~= rv.take(ri as int));
                assert(rv.take(ri + 1).last() == (lo as int, hi as int));
            }
            push_range_seeds(graph, file, lo, hi, &mut seeds);
            proof {
                assert(base + file_range_seeds(g, file@, rv.take(ri + 1)) =~= base + file_range_seeds(g, file@, rv.take(ri as int))
                    + range_seeds(g, file@, lo as int, hi as int));
            }
            ri = ri + 1;
        }
        proof {
            assert(rv.take(rv.len() as int) =~= rv);
            assert(tv.take(fi + 1).drop_last() =~= tv.take(fi as int));
            assert(tv.take(fi + 1).last() == (file@, rv));
        }
        fi = fi + 1;
    }
    proof {
        assert(tv.take(tv.len() as int) =~= tv);
    }
    compute_impact(graph, seeds.as_slice())
}

proof fn lemma_range_seeds_mem(nodes: Seq<Node>, f: Seq<char>, lo: int, hi: int, s: Seq<char>)
    ensures
        range_seeds(nodes, f, lo, hi).contains(s) <==> exists|i: int|
            0 <= i < nodes.len() && nodes[i].file@ == f && !(nodes[i].kind is Module) && #[trigger] overlaps(nodes[i], lo, hi)
                && nodes[i].id.0@ == s,
{
    let p = seed_at(nodes, f, lo, hi);
    let sel = select(nodes.len(), p);
    lemma_select(nodes.len(), p);
    let ids = ids_at(nodes, sel);
    assert(ids == range_seeds(nodes, f, lo, hi));
    if ids.contains(s) {
        let k = choose|k: int| 0 <= k < ids.len() && ids[k] == s;
        let i = sel[k];
        assert(p(i));
        assert(overlaps(nodes[i], lo, hi));
    }
    if exists|i: int|
        0 <= i < nodes.len() && nodes[i].file@ == f && !(nodes[i].kind is Module) && #[trigger] overlaps(nodes[i], lo, hi)
            && nodes[i].id.0@ == s {
        let i = choose|i: int|
            0 <= i < nodes.len() && nodes[i].file@ == f && !(nodes[i].kind is Module) && #[trigger] overlaps(nodes[i], lo, hi)
                && nodes[i].id.0@ == s;
        assert(p(i));
        assert(sel.contains(i));
        let k = choose|k: int| 0 <= k < sel.len() && sel[k] == i;
        assert(ids[k] == s);
    }
}

proof fn lemma_file_range_seeds_mem(nodes: Seq<Node>, f: Seq<char>, rs: Seq<(int, int)>, s: Seq<char>)
    ensures
        file_range_seeds(nodes, f, rs).contains(s) <==> exists|r: int|
            0 <= r < rs.len() && #[trigger] range_seeds(nodes, f, rs[r].0, rs[r].1).contains(s),
    decreases rs.len(),
{
    if rs.len() > 0 {
        let head = rs.drop_last();
        lemma_file_range_seeds_mem(nodes, f, head, s);
        let a = file_range_seeds(nodes, f, head);
        let b = range_seeds(nodes, f, rs.last().0, rs.last().1);
        assert(file_range_seeds(nodes, f, rs) == a + b);
        if (a + b).contains(s) {
            let k = choose|k: int| 0 <= k < (a + b).len() && (a + b)[k] == s;
            if k < a.len() {
                assert(a[k] == s);
                assert(a.contains(s));
                let r = choose|r: int| 0 <= r < head.len() && #[trigger] range_seeds(nodes, f, head[r].0, head[r].1).contains(s);
                assert(head[r] == rs[r]);
            } else {
                assert(b[k - a.len()] == s);
                assert(range_seeds(nodes, f, rs[rs.len() - 1].0, rs[rs.len() - 1].1).contains(s));
            }
        }
        if exists|r: int| 0 <= r < rs.len() && #[trigger] range_seeds(nodes, f, rs[r].0, rs[r].1).contains(s) {
            let r = choose|r: int| 0 <= r < rs.len() && #[trigger] range_seeds(nodes, f, rs[r].0, rs[r].1).contains(s);
            if r < rs.len() - 1 {
                assert(head[r] == rs[r]);
                assert(range_seeds(nodes, f, head[r].0, head[r].1).contains(s));
                assert(a.contains(s));
                let k = choose|k: int| 0 <= k < a.len() && a[k] == s;
                assert((a + b)[k] == s);
            } else {
                assert(b.contains(s));
                let k = choose|k: int| 0 <= k < b.len() && b[k] == s;
                assert((a + b)[a.len() + k] == s);
            }
        }
    }
}

proof fn lemma_diff_seeds_mem(nodes: Seq<Node>, files: Seq<(Seq<char>, Seq<(int, int)>)>, s: Seq<char>)
    ensures
        diff_seeds(nodes, files).contains(s) <==> exists|j: int|
            0 <= j < files.len() && #[trigger] file_range_seeds(nodes, files[j].0, files[j].1).contains(s),
    decreases files.len(),
{
    if files.len() > 0 {
        let head = files.drop_last();
        lemma_diff_seeds_mem(nodes, head, s);
        let a = diff_seeds(nodes, head);
        let b = file_range_seeds(nodes, files.last().0, files.last().1);
        assert(diff_seeds(nodes, files) == a + b);
        if (a + b).contains(s) {
            let k = choose|k: int| 0 <= k < (a + b).len() && (a + b)[k] == s;
            if k < a.len() {
                assert(a[k] == s);
                assert(a.contains(s));
                let j = choose|j: int| 0 <= j < head.len() && #[trigger] file_range_seeds(nodes, head[j].0, head[j].1).contains(s);
                assert(head[j] == files[j]);
            } else {
                assert(b[k - a.len()] == s);
                assert(file_range_seeds(nodes, files[files.len() - 1].0, files[files.len() - 1].1).contains(s));
            }
        }
        if exists|j: int| 0 <= j < files.len() && #[trigger] file_range_seeds(nodes, files[j].0, files[j].1).contains(s) {
            let j = choose|j: int| 0 <= j < files.len() && #[trigger] file_range_seeds(nodes, files[j].0, files[j].1).contains(s);
            if j < files.len() - 1 {
                assert(head[j] == files[j]);
                assert(file_range_seeds(nodes, head[j].0, head[j].1).contains(s));
                assert(a.contains(s));
                let k = choose|k: int| 0 <= k < a.len() && a[k] == s;
                assert((a + b)[k] == s);
            } else {
                assert(b.contains(s));
                let k = choose|k: int| 0 <= k < b.len() && b[k] == s;
                assert((a + b)[a.len() + k] == s);
            }
        }
    }
}

/// The seeds of a diff query are exactly the non-module symbols whose span overlaps some
/// range listed for their file, whichever file entry and whichever of its ranges that is.
pub proof fn law_diff_seeds_are_the_touched_symbols(nodes: Seq<Node>, files: Seq<(Seq<char>, Seq<(int, int)>)>, s: Seq<char>)
    ensures
        diff_seeds(nodes, files).contains(s) <==> exists|i: int, j: int, r: int|
            0 <= i < nodes.len() && 0 <= j < files.len() && 0 <= r < files[j].1.len() && nodes[i].file@ == files[j].0
                && !(nodes[i].kind is Module) && #[trigger] overlaps(nodes[i], files[j].1[r].0, files[j].1[r].1)
                && nodes[i].id.0@ == s,
{
    lemma_diff_seeds_mem(nodes, files, s);
    if diff_seeds(nodes, files).contains(s) {
        let j = choose|j: int| 0 <= j < files.len() && #[trigger] file_range_seeds(nodes, files[j].0, files[j].1).contains(s);
        lemma_file_range_seeds_mem(nodes, files[j].0, files[j].1, s);
        let r = choose|r: int|
            0 <= r < files[j].1.len() && #[trigger] range_seeds(nodes, files[j].0, files[j].1[r].0, files[j].1[r].1).contains(s);
        lemma_range_seeds_mem(nodes, files[j].0, files[j].1[r].0, files[j].1[r].1, s);
        let i = choose|i: int|
            0 <= i < nodes.len() && nodes[i].file@ == files[j].0 && !(nodes[i].kind is Module) && #[trigger] overlaps(
                nodes[i],
                files[j].1[r].0,
                files[j].1[r].1,
            ) && nodes[i].id.0@ == s;
        assert(overlaps(nodes[i], files[j].1[r].0, files[j].1[r].1));
    }
    if exists|i: int, j: int, r: int|
        0 <= i < nodes.len() && 0 <= j < files.len() && 0 <= r < files[j].1.len() && nodes[i].file@ == files[j].0
            && !(nodes[i].kind is Module) && #[trigger] overlaps(nodes[i], files[j].1[r].0, files[j].1[r].1)
            && nodes[i].id.0@ == s {
        let (i, j, r) = choose|i: int, j: int, r: int|
            0 <= i < nodes.len() && 0 <= j < files.len() && 0 <= r < files[j].1.len() && nodes[i].file@ == files[j].0
                && !(nodes[i].kind is Module) && #[trigger] overlaps(nodes[i], files[j].1[r].0, files[j].1[r].1)
                && nodes[i].id.0@ == s;
        lemma_range_seeds_mem(nodes, files[j].0, files[j].1[r].0, files[j].1[r].1, s);
        assert(range_seeds(nodes, files[j].0, files[j].1[r].0, files[j].1[r].1).contains(s));
        lemma_file_range_seeds_mem(nodes, files[j].0, files[j].1, s);
        assert(file_range_seeds(nodes, files[j].0, files[j].1).contains(s));
    }
}

} // verus!
