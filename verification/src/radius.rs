//! What the blast-radius walk guarantees: every dependent it reports hangs off a seed by
//! a chain of walked edges whose weakest link is its confidence, nothing outside the
//! walk leads into it, and the direct dependents are exactly the callers of the seeds.
use vstd::prelude::*;

use crate::engine::{
    bfs, callers_of, caller_family, conf_at, found_ok, lemma_found_bound, reached, seed_frontier, sweep, visit,
    walks_back, ReachView, WalkView,
};
use crate::engine::{
    affected, at_least_of, bucket, dependent_paths, dependent_views, is_test_at, lemma_bucket, report_holds,
    section_holds, string_views, tests_in, via_of, Dependent, DependentView, ImpactReport,
};
use crate::order::lemma_sorted_unique;
use crate::graph::{rank, weaker_of, Confidence, ContractKind, Edge, Node};
use crate::engine::{contract_hit, contract_names};
use crate::indices::{lemma_select, lemma_select_ext, select};

verus! {

/// The ids of the dependents found.
pub open spec fn found_ids(found: Seq<ReachView>) -> Set<Seq<char>> {
    Set::new(|y: Seq<char>| exists|i: int| 0 <= i < found.len() && #[trigger] found[i].id == y)
}

/// The ids of the dependents reached at `Heuristic`: reported, never walked through.
pub open spec fn heur_ids(found: Seq<ReachView>) -> Set<Seq<char>> {
    Set::new(
        |y: Seq<char>|
            exists|i: int| 0 <= i < found.len() && #[trigger] found[i].id == y && found[i].confidence == Confidence::Heuristic,
    )
}

/// The ids of a list of frontier entries.
pub open spec fn entry_ids(fr: Seq<(Seq<char>, Option<int>)>) -> Set<Seq<char>> {
    Set::new(|y: Seq<char>| exists|j: int| 0 <= j < fr.len() && #[trigger] fr[j].0 == y)
}

/// The dependent at `i` was reached over one walked edge from a seed (then it is direct
/// and the edge's confidence is its own) or from an earlier dependent (then it is
/// indirect, that dependent was not reached at `Heuristic`, and its confidence is that
/// dependent's weakened by the edge's), and is no seed itself.
pub open spec fn link_ok(edges: Seq<Edge>, seeds: Seq<Seq<char>>, found: Seq<ReachView>, i: int) -> bool {
    let f = found[i];
    &&& 0 <= f.edge < edges.len()
    &&& walks_back(edges[f.edge].kind)
    &&& edges[f.edge].from.0@ == f.id
    &&& !seeds.contains(f.id)
    &&& match f.parent {
        None => seeds.contains(edges[f.edge].to.0@) && f.direct && f.confidence == edges[f.edge].confidence,
        Some(p) => 0 <= p < i && found[p].id == edges[f.edge].to.0@ && !f.direct && found[p].confidence
            != Confidence::Heuristic && f.confidence == weaker_of(found[p].confidence, edges[f.edge].confidence),
    }
}

/// Every dependent found hangs off a seed by a chain of walked edges (see `link_ok`).
pub open spec fn chained(edges: Seq<Edge>, seeds: Seq<Seq<char>>, found: Seq<ReachView>) -> bool {
    forall|i: int| 0 <= i < found.len() ==> #[trigger] link_ok(edges, seeds, found, i)
}

/// Every walked edge into `visited` whose target is not `pending` starts in `visited`.
pub open spec fn closed_except(edges: Seq<Edge>, visited: Set<Seq<char>>, pending: Set<Seq<char>>) -> bool {
    forall|k: int|
        0 <= k < edges.len() && walks_back(#[trigger] edges[k].kind) && visited.contains(edges[k].to.0@)
            && !pending.contains(edges[k].to.0@) ==> visited.contains(edges[k].from.0@)
}

/// A frontier entry stands for a seed (`None`) or for the dependent at its position, one
/// not reached at `Heuristic`.
pub open spec fn entry_ok(seeds: Seq<Seq<char>>, found: Seq<ReachView>, e: (Seq<char>, Option<int>)) -> bool {
    match e.1 {
        None => seeds.contains(e.0),
        Some(p) => 0 <= p < found.len() && found[p].id == e.0 && found[p].confidence != Confidence::Heuristic,
    }
}

/// The state of the walk within a hop that began with `f0` dependents found.
pub open spec fn walk_ok(edges: Seq<Edge>, seeds: Seq<Seq<char>>, st: WalkView, f0: int) -> bool {
    &&& found_ok(edges, st.visited, st.found)
    &&& chained(edges, seeds, st.found)
    &&& st.visited == seeds.to_set().union(found_ids(st.found))
    &&& 0 <= f0 <= st.found.len()
    &&& st.next.len() <= st.found.len() - f0
    &&& forall|j: int| 0 <= j < st.next.len() ==> entry_ok(seeds, st.found, #[trigger] st.next[j])
        && (st.next[j].1 matches Some(g) && f0 <= g)
}

/// The walk state after recording a newly reached dependent.
pub open spec fn pushed(s: WalkView, entry: ReachView) -> WalkView {
    WalkView {
        visited: s.visited.insert(entry.id),
        found: s.found.push(entry),
        next: if entry.confidence == Confidence::Heuristic {
            s.next
        } else {
            s.next.push((entry.id, Some(s.found.len() as int)))
        },
    }
}

proof fn lemma_push_found_ok(edges: Seq<Edge>, s: WalkView, entry: ReachView)
    requires
        found_ok(edges, s.visited, s.found),
        !s.visited.contains(entry.id),
        0 <= entry.edge < edges.len(),
        edges[entry.edge].from.0@ == entry.id,
        entry.parent matches Some(p) ==> 0 <= p < s.found.len(),
    ensures
        found_ok(edges, pushed(s, entry).visited, pushed(s, entry).found),
{
    let r = pushed(s, entry);
    let n = s.found.len();
    assert forall|a: int, b: int| 0 <= a < r.found.len() && 0 <= b < r.found.len() && a != b implies r.found[a].id
        != r.found[b].id by {
        if a < n && b < n {
            assert(r.found[a] == s.found[a]);
            assert(r.found[b] == s.found[b]);
        } else if a < n {
            assert(r.found[a] == s.found[a]);
            assert(0 <= s.found[a].edge);
        } else if b < n {
            assert(r.found[b] == s.found[b]);
            assert(0 <= s.found[b].edge);
        }
    }
    assert forall|a: int| 0 <= a < r.found.len() implies 0 <= #[trigger] r.found[a].edge < edges.len()
        && edges[r.found[a].edge].from.0@ == r.found[a].id && r.visited.contains(r.found[a].id)
        && (r.found[a].parent matches Some(p) ==> 0 <= p < a) by {
        if a < n {
            assert(r.found[a] == s.found[a]);
            assert(0 <= s.found[a].edge);
        }
    }
}

proof fn lemma_push_chained(edges: Seq<Edge>, seeds: Seq<Seq<char>>, s: WalkView, entry: ReachView)
    requires
        chained(edges, seeds, s.found),
        link_ok(edges, seeds, s.found.push(entry), s.found.len() as int),
    ensures
        chained(edges, seeds, pushed(s, entry).found),
{
    let r = pushed(s, entry).found;
    let n = s.found.len();
    assert forall|i: int| 0 <= i < r.len() implies #[trigger] link_ok(edges, seeds, r, i) by {
        if i < n {
            assert(link_ok(edges, seeds, s.found, i));
            assert(r[i] == s.found[i]);
            if let Some(p) = s.found[i].parent {
                assert(r[p] == s.found[p]);
            }
        }
    }
}

proof fn lemma_push_rest(edges: Seq<Edge>, seeds: Seq<Seq<char>>, s: WalkView, f0: int, entry: ReachView, pending: Set<Seq<char>>)
    requires
        s.visited == seeds.to_set().union(found_ids(s.found)),
        0 <= f0 <= s.found.len(),
        s.next.len() <= s.found.len() - f0,
        forall|j: int| 0 <= j < s.next.len() ==> entry_ok(seeds, s.found, #[trigger] s.next[j])
            && (s.next[j].1 matches Some(g) && f0 <= g),
        closed_except(edges, s.visited, pending.union(entry_ids(s.next)).union(heur_ids(s.found))),
    ensures
        ({
            let r = pushed(s, entry);
            &&& r.visited == seeds.to_set().union(found_ids(r.found))
            &&& r.next.len() <= r.found.len() - f0
            &&& forall|j: int| 0 <= j < r.next.len() ==> entry_ok(seeds, r.found, #[trigger] r.next[j])
                && (r.next[j].1 matches Some(g) && f0 <= g)
            &&& closed_except(edges, r.visited, pending.union(entry_ids(r.next)).union(heur_ids(r.found)))
        }),
{
    let r = pushed(s, entry);
    let n = s.found.len();
    let c = entry.id;
    assert(r.visited =~= seeds.to_set().union(found_ids(r.found))) by {
        assert forall|y: Seq<char>| found_ids(r.found).contains(y) <==> (found_ids(s.found).contains(y) || y == c) by {
            if found_ids(r.found).contains(y) {
                let i = choose|i: int| 0 <= i < r.found.len() && #[trigger] r.found[i].id == y;
                if i < n {
                    assert(s.found[i].id == y);
                }
            }
            if found_ids(s.found).contains(y) {
                let i = choose|i: int| 0 <= i < s.found.len() && #[trigger] s.found[i].id == y;
                assert(r.found[i].id == y);
            }
            if y == c {
                assert(r.found[n as int].id == y);
            }
        }
    }
    assert forall|j: int| 0 <= j < r.next.len() implies entry_ok(seeds, r.found, #[trigger] r.next[j])
        && (r.next[j].1 matches Some(g) && f0 <= g) by {
        if j < s.next.len() {
            assert(r.next[j] == s.next[j]);
            assert(entry_ok(seeds, s.found, s.next[j]));
            if let Some(g) = s.next[j].1 {
                assert(r.found[g] == s.found[g]);
            }
        } else {
            assert(r.found[n as int] == entry);
        }
    }
    assert forall|kk: int|
        0 <= kk < edges.len() && walks_back(#[trigger] edges[kk].kind) && r.visited.contains(edges[kk].to.0@)
            && !pending.union(entry_ids(r.next)).union(heur_ids(r.found)).contains(edges[kk].to.0@) implies r.visited.contains(
        edges[kk].from.0@,
    ) by {
        let t = edges[kk].to.0@;
        if entry.confidence == Confidence::Heuristic {
            assert(r.found[n as int] == entry);
            assert(heur_ids(r.found).contains(c));
        } else {
            assert(r.next[s.next.len() as int].0 == c);
            assert(entry_ids(r.next).contains(c));
        }
        assert(t != c);
        assert forall|j: int| 0 <= j < s.next.len() implies s.next[j].0 != t by {
            assert(r.next[j] == s.next[j]);
            assert(entry_ids(r.next).contains(r.next[j].0));
        }
        assert(!entry_ids(s.next).contains(t));
        assert(!heur_ids(s.found).contains(t)) by {
            if heur_ids(s.found).contains(t) {
                let i = choose|i: int| 0 <= i < s.found.len() && #[trigger] s.found[i].id == t && s.found[i].confidence
                    == Confidence::Heuristic;
                assert(r.found[i] == s.found[i]);
            }
        }
    }
}

#[verifier::spinoff_prover]
proof fn lemma_visit(
    edges: Seq<Edge>,
    seeds: Seq<Seq<char>>,
    st: WalkView,
    f0: int,
    x: Seq<char>,
    xi: Option<int>,
    first: bool,
    ks: Seq<int>,
    pending: Set<Seq<char>>,
)
    requires
        walk_ok(edges, seeds, st, f0),
        entry_ok(seeds, st.found, (x, xi)),
        first <==> xi is None,
        forall|q: int| 0 <= q < ks.len() ==> 0 <= #[trigger] ks[q] < edges.len() && walks_back(edges[ks[q]].kind)
            && edges[ks[q]].to.0@ == x,
        closed_except(edges, st.visited, pending.union(entry_ids(st.next)).union(heur_ids(st.found))),
    ensures
        ({
            let r = visit(edges, st, conf_at(st.found, xi), xi, first, ks);
            &&& walk_ok(edges, seeds, r, f0)
            &&& r.found.len() >= st.found.len()
            &&& r.found.take(st.found.len() as int) == st.found
            &&& st.visited.subset_of(r.visited)
            &&& closed_except(edges, r.visited, pending.union(entry_ids(r.next)).union(heur_ids(r.found)))
            &&& forall|q: int| 0 <= q < ks.len() ==> r.visited.contains(edges[#[trigger] ks[q]].from.0@)
            &&& forall|i: int| st.found.len() <= i < r.found.len() ==> (#[trigger] r.found[i]).direct == first
        }),
    decreases ks.len(),
{
    let xc = conf_at(st.found, xi);
    if ks.len() > 0 {
        let ks0 = ks.drop_last();
        assert forall|q: int| 0 <= q < ks0.len() implies 0 <= #[trigger] ks0[q] < edges.len() && walks_back(edges[ks0[q]].kind)
            && edges[ks0[q]].to.0@ == x by {
            assert(ks0[q] == ks[q]);
        }
        lemma_visit(edges, seeds, st, f0, x, xi, first, ks0, pending);
        let s = visit(edges, st, xc, xi, first, ks0);
        let k = ks.last();
        let c = edges[k].from.0@;
        let r = visit(edges, st, xc, xi, first, ks);
        assert(ks[ks.len() - 1] == k);
        if !s.visited.contains(c) {
            let entry = ReachView { id: c, confidence: weaker_of(xc, edges[k].confidence), parent: xi, direct: first, edge: k };
            assert(r == pushed(s, entry));
            assert(!seeds.contains(c)) by {
                if seeds.contains(c) {
                    assert(seeds.to_set().contains(c));
                }
            }
            if let Some(p) = xi {
                assert(s.found[p] == st.found[p]) by {
                    assert(s.found.take(st.found.len() as int)[p] == st.found[p]);
                }
            }
            lemma_push_found_ok(edges, s, entry);
            assert(link_ok(edges, seeds, s.found.push(entry), s.found.len() as int)) by {
                if let Some(p) = xi {
                    assert(s.found.push(entry)[p] == s.found[p]);
                }
            }
            lemma_push_chained(edges, seeds, s, entry);
            lemma_push_rest(edges, seeds, s, f0, entry, pending);
            assert(r.found.take(st.found.len() as int) =~= st.found) by {
                assert(s.found.take(st.found.len() as int) == st.found);
            }
            assert forall|i: int| st.found.len() <= i < r.found.len() implies (#[trigger] r.found[i]).direct == first by {
                if i < s.found.len() {
                    assert(r.found[i] == s.found[i]);
                }
            }
        }
        assert forall|q: int| 0 <= q < ks.len() implies r.visited.contains(edges[#[trigger] ks[q]].from.0@) by {
            if q < ks.len() - 1 {
                assert(ks0[q] == ks[q]);
            }
        }
    } else {
        assert(st.found.take(st.found.len() as int) =~= st.found);
    }
}

#[verifier::spinoff_prover]
proof fn lemma_sweep(
    edges: Seq<Edge>,
    seeds: Seq<Seq<char>>,
    st0: WalkView,
    fr: Seq<(Seq<char>, Option<int>)>,
    first: bool,
    j: int,
)
    requires
        walk_ok(edges, seeds, st0, st0.found.len() as int),
        forall|q: int| 0 <= q < fr.len() ==> entry_ok(seeds, st0.found, #[trigger] fr[q]) && (first <==> fr[q].1 is None),
        closed_except(edges, st0.visited, entry_ids(fr).union(heur_ids(st0.found))),
        0 <= j <= fr.len(),
    ensures
        ({
            let r = sweep(edges, st0, fr.take(j), first);
            &&& walk_ok(edges, seeds, r, st0.found.len() as int)
            &&& r.found.len() >= st0.found.len()
            &&& r.found.take(st0.found.len() as int) == st0.found
            &&& closed_except(edges, r.visited, entry_ids(fr.skip(j)).union(entry_ids(r.next)).union(heur_ids(r.found)))
            &&& forall|i: int| st0.found.len() <= i < r.found.len() ==> (#[trigger] r.found[i]).direct == first
        }),
    decreases j,
{
    let f0 = st0.found.len() as int;
    if j == 0 {
        assert(fr.take(0) =~= Seq::<(Seq<char>, Option<int>)>::empty());
        assert(fr.skip(0) =~= fr);
        assert(st0.next =~= Seq::<(Seq<char>, Option<int>)>::empty());
        assert(entry_ids(fr).union(entry_ids(st0.next)).union(heur_ids(st0.found)) =~= entry_ids(fr).union(
            heur_ids(st0.found),
        ));
        assert(st0.found.take(f0) =~= st0.found);
    } else {
        lemma_sweep(edges, seeds, st0, fr, first, j - 1);
        let s = sweep(edges, st0, fr.take(j - 1), first);
        assert(fr.take(j).drop_last() =~= fr.take(j - 1));
        let x = fr[j - 1];
        assert(fr.take(j).last() == x);
        let ks = callers_of(edges, x.0);
        let r = sweep(edges, st0, fr.take(j), first);
        assert(r == visit(edges, s, conf_at(s.found, x.1), x.1, first, ks));
        lemma_select(edges.len(), caller_family(edges)(x.0));
        assert(entry_ok(seeds, s.found, x)) by {
            assert(entry_ok(seeds, st0.found, fr[j - 1]));
            if let Some(p) = x.1 {
                assert(s.found.take(f0)[p] == st0.found[p]);
            }
        }
        let pending = entry_ids(fr.skip(j - 1));
        lemma_visit(edges, seeds, s, f0, x.0, x.1, first, ks, pending);
        assert forall|kk: int|
            0 <= kk < edges.len() && walks_back(#[trigger] edges[kk].kind) && r.visited.contains(edges[kk].to.0@)
                && !entry_ids(fr.skip(j)).union(entry_ids(r.next)).union(heur_ids(r.found)).contains(edges[kk].to.0@)
                implies r.visited.contains(edges[kk].from.0@) by {
            let t = edges[kk].to.0@;
            if t == x.0 {
                assert(caller_family(edges)(x.0)(kk));
                assert(ks.contains(kk));
                let q = choose|q: int| 0 <= q < ks.len() && ks[q] == kk;
                assert(r.visited.contains(edges[ks[q]].from.0@));
            } else {
                assert(!pending.contains(t)) by {
                    if pending.contains(t) {
                        let q = choose|q: int| 0 <= q < fr.skip(j - 1).len() && #[trigger] fr.skip(j - 1)[q].0 == t;
                        assert(q != 0);
                        assert(fr.skip(j)[q - 1].0 == t);
                    }
                }
            }
        }
        assert(r.found.take(f0) =~= st0.found) by {
            assert(r.found.take(s.found.len() as int) == s.found);
            assert(s.found.take(f0) == st0.found);
        }
        assert forall|i: int| st0.found.len() <= i < r.found.len() implies (#[trigger] r.found[i]).direct == first by {
            if i < s.found.len() {
                assert(r.found.take(s.found.len() as int)[i] == s.found[i]);
            }
        }
    }
}

#[verifier::spinoff_prover]
proof fn lemma_bfs(
    edges: Seq<Edge>,
    seeds: Seq<Seq<char>>,
    visited: Set<Seq<char>>,
    found: Seq<ReachView>,
    frontier: Seq<(Seq<char>, Option<int>)>,
    first: bool,
    fuel: nat,
)
    requires
        walk_ok(edges, seeds, WalkView { visited, found, next: Seq::empty() }, found.len() as int),
        forall|q: int| 0 <= q < frontier.len() ==> entry_ok(seeds, found, #[trigger] frontier[q]) && (first <==> frontier[q].1 is None),
        closed_except(edges, visited, entry_ids(frontier).union(heur_ids(found))),
        frontier.len() > 0 ==> fuel + found.len() > edges.len(),
    ensures
        ({
            let (v, f) = bfs(edges, visited, found, frontier, first, fuel);
            &&& found_ok(edges, v, f)
            &&& chained(edges, seeds, f)
            &&& v == seeds.to_set().union(found_ids(f))
            &&& f.len() >= found.len()
            &&& f.take(found.len() as int) == found
            &&& closed_except(edges, v, heur_ids(f))
        }),
    decreases fuel,
{
    let st0 = WalkView { visited, found, next: Seq::empty() };
    if frontier.len() == 0 {
        assert(entry_ids(frontier).union(heur_ids(found)) =~= heur_ids(found));
        assert(found.take(found.len() as int) =~= found);
    } else if fuel == 0 {
        lemma_found_bound(edges, visited, found);
    } else {
        lemma_sweep(edges, seeds, st0, frontier, first, frontier.len() as int);
        assert(frontier.take(frontier.len() as int) =~= frontier);
        let s = sweep(edges, st0, frontier, first);
        assert(frontier.skip(frontier.len() as int) =~= Seq::<(Seq<char>, Option<int>)>::empty());
        assert(entry_ids(frontier.skip(frontier.len() as int)).union(entry_ids(s.next)).union(heur_ids(s.found))
            =~= entry_ids(s.next).union(heur_ids(s.found)));
        assert forall|q: int| 0 <= q < s.next.len() implies entry_ok(seeds, s.found, #[trigger] s.next[q]) && (false <==> s.next[q].1 is None) by {
        }
        lemma_bfs(edges, seeds, s.visited, s.found, s.next, false, (fuel - 1) as nat);
        let (v, f) = bfs(edges, visited, found, frontier, first, fuel);
        assert(f.take(found.len() as int) =~= found) by {
            assert(f.take(s.found.len() as int) == s.found);
            assert(s.found.take(found.len() as int) == found);
        }
    }
}

/// The walk from the seeds, with its invariants established.
proof fn lemma_reached(edges: Seq<Edge>, seeds: Seq<Seq<char>>)
    ensures
        ({
            let (v, f) = reached(edges, seeds);
            &&& found_ok(edges, v, f)
            &&& chained(edges, seeds, f)
            &&& v == seeds.to_set().union(found_ids(f))
            &&& closed_except(edges, v, heur_ids(f))
        }),
{
    let fr = seed_frontier(seeds);
    let v0 = seeds.to_set();
    let f0 = Seq::<ReachView>::empty();
    assert(v0 =~= seeds.to_set().union(found_ids(f0)));
    assert(entry_ids(fr).union(heur_ids(f0)) =~= entry_ids(fr));
    assert forall|q: int| 0 <= q < fr.len() implies entry_ok(seeds, f0, #[trigger] fr[q]) && (true <==> fr[q].1 is None) by {
        assert(fr[q] == (seeds[q], None::<int>));
        assert(seeds.contains(seeds[q]));
    }
    assert forall|kk: int|
        0 <= kk < edges.len() && walks_back(#[trigger] edges[kk].kind) && v0.contains(edges[kk].to.0@)
            && !entry_ids(fr).contains(edges[kk].to.0@) implies v0.contains(edges[kk].from.0@) by {
        let t = edges[kk].to.0@;
        let q = choose|q: int| 0 <= q < seeds.len() && seeds[q] == t;
        assert(fr[q].0 == t);
    }
    lemma_bfs(edges, seeds, v0, f0, fr, true, (edges.len() + 1) as nat);
}

/// Every dependent of a blast radius hangs off a seed by one walked edge (calls,
/// references, or producing, consuming, reading or writing a contract), either directly
/// or through an earlier dependent; its confidence is the weakest link of that chain; it
/// is direct exactly when it hangs off a seed; a dependent reached at `Heuristic` is
/// never the one another was reached through; no seed is its own dependent; and the
/// walk visits exactly the seeds and the dependents.
pub proof fn law_dependents_hang_off_seeds(edges: Seq<Edge>, seeds: Seq<Seq<char>>)
    ensures
        chained(edges, seeds, reached(edges, seeds).1),
        forall|i: int| 0 <= i < reached(edges, seeds).1.len() ==> (#[trigger] reached(edges, seeds).1[i].parent matches Some(
            p,
        ) ==> reached(edges, seeds).1[p].confidence != Confidence::Heuristic),
        reached(edges, seeds).0 == seeds.to_set().union(found_ids(reached(edges, seeds).1)),
        forall|a: int, b: int|
            0 <= a < reached(edges, seeds).1.len() && 0 <= b < reached(edges, seeds).1.len() && a != b
                ==> reached(edges, seeds).1[a].id != reached(edges, seeds).1[b].id,
{
    lemma_reached(edges, seeds);
    let f = reached(edges, seeds).1;
    assert forall|i: int| 0 <= i < f.len() implies (#[trigger] f[i].parent matches Some(p) ==> f[p].confidence
        != Confidence::Heuristic) by {
        assert(link_ok(edges, seeds, f, i));
    }
}

/// Nothing outside a blast radius leads into it, except through a dependent reached at
/// `Heuristic` (reported, but not walked through): whoever calls, references or touches
/// (through a contract edge) a seed or another dependent is itself a seed or a dependent.
pub proof fn law_nothing_leads_in(edges: Seq<Edge>, seeds: Seq<Seq<char>>, k: int)
    requires
        0 <= k < edges.len(),
        walks_back(edges[k].kind),
        reached(edges, seeds).0.contains(edges[k].to.0@),
        !heur_ids(reached(edges, seeds).1).contains(edges[k].to.0@),
    ensures
        reached(edges, seeds).0.contains(edges[k].from.0@),
{
    lemma_reached(edges, seeds);
}

/// `path` lists walked edges leading from `x` to a seed without passing through `stop`:
/// the first starts at `x`, each next one starts where the previous one ends, no edge
/// ends in `stop`, and the last ends at a seed.
pub open spec fn leads_to_seed(
    edges: Seq<Edge>,
    seeds: Seq<Seq<char>>,
    stop: Set<Seq<char>>,
    x: Seq<char>,
    path: Seq<int>,
) -> bool
    decreases path.len(),
{
    if path.len() == 0 {
        seeds.contains(x)
    } else {
        &&& 0 <= path[0] < edges.len()
        &&& walks_back(edges[path[0]].kind)
        &&& edges[path[0]].from.0@ == x
        &&& !stop.contains(edges[path[0]].to.0@)
        &&& leads_to_seed(edges, seeds, stop, edges[path[0]].to.0@, path.skip(1))
    }
}

/// The chain of edges by which the dependent at `i` was reached.
pub open spec fn path_of(found: Seq<ReachView>, i: int) -> Seq<int>
    decreases i,
{
    if 0 <= i < found.len() {
        match found[i].parent {
            None => seq![found[i].edge],
            Some(p) => if 0 <= p < i {
                seq![found[i].edge] + path_of(found, p)
            } else {
                Seq::empty()
            },
        }
    } else {
        Seq::empty()
    }
}

proof fn lemma_path_of(edges: Seq<Edge>, seeds: Seq<Seq<char>>, v: Set<Seq<char>>, found: Seq<ReachView>, i: int)
    requires
        chained(edges, seeds, found),
        found_ok(edges, v, found),
        0 <= i < found.len(),
    ensures
        leads_to_seed(edges, seeds, heur_ids(found), found[i].id, path_of(found, i)),
    decreases i,
{
    assert(link_ok(edges, seeds, found, i));
    let h = heur_ids(found);
    let path = path_of(found, i);
    let e = found[i].edge;
    let t = edges[e].to.0@;
    match found[i].parent {
        None => {
            assert(path =~= seq![e]);
            assert(path.skip(1) =~= Seq::<int>::empty());
            assert(leads_to_seed(edges, seeds, h, t, Seq::<int>::empty()));
            assert(path[0] == e);
            assert(!h.contains(t)) by {
                if h.contains(t) {
                    let q = choose|q: int| 0 <= q < found.len() && #[trigger] found[q].id == t && found[q].confidence
                        == Confidence::Heuristic;
                    assert(link_ok(edges, seeds, found, q));
                }
            }
        },
        Some(p) => {
            lemma_path_of(edges, seeds, v, found, p);
            assert(path =~= seq![e] + path_of(found, p));
            assert(path.skip(1) =~= path_of(found, p));
            assert(path[0] == e);
            assert(leads_to_seed(edges, seeds, h, t, path.skip(1)));
            assert(!h.contains(t)) by {
                if h.contains(t) {
                    let q = choose|q: int| 0 <= q < found.len() && #[trigger] found[q].id == t && found[q].confidence
                        == Confidence::Heuristic;
                    assert(q == p);
                }
            }
        },
    }
}

proof fn lemma_path_reaches(
    edges: Seq<Edge>,
    seeds: Seq<Seq<char>>,
    v: Set<Seq<char>>,
    stop: Set<Seq<char>>,
    x: Seq<char>,
    path: Seq<int>,
)
    requires
        closed_except(edges, v, stop),
        seeds.to_set().subset_of(v),
        leads_to_seed(edges, seeds, stop, x, path),
    ensures
        v.contains(x),
    decreases path.len(),
{
    if path.len() == 0 {
        assert(seeds.to_set().contains(x));
    } else {
        let k = path[0];
        lemma_path_reaches(edges, seeds, v, stop, edges[k].to.0@, path.skip(1));
        assert(walks_back(edges[k].kind));
    }
}

/// The blast radius is reverse reachability that stops at `Heuristic`: the walk visits
/// `x` if and only if some chain of walked edges leads from `x` to a seed without
/// passing through a dependent reached at `Heuristic`.
pub proof fn law_radius_is_reverse_reachability(edges: Seq<Edge>, seeds: Seq<Seq<char>>, x: Seq<char>)
    ensures
        reached(edges, seeds).0.contains(x) <==> exists|path: Seq<int>|
            leads_to_seed(edges, seeds, heur_ids(reached(edges, seeds).1), x, path),
{
    lemma_reached(edges, seeds);
    let (v, f) = reached(edges, seeds);
    let h = heur_ids(f);
    if v.contains(x) {
        if seeds.contains(x) {
            assert(leads_to_seed(edges, seeds, h, x, Seq::<int>::empty()));
        } else {
            assert(found_ids(f).contains(x));
            let i = choose|i: int| 0 <= i < f.len() && #[trigger] f[i].id == x;
            lemma_path_of(edges, seeds, v, f, i);
        }
    }
    if exists|path: Seq<int>| leads_to_seed(edges, seeds, h, x, path) {
        let path = choose|path: Seq<int>| leads_to_seed(edges, seeds, h, x, path);
        lemma_path_reaches(edges, seeds, v, h, x, path);
    }
}

/// The direct dependents are exactly the callers of the seeds: a dependent is reported
/// direct if and only if it is no seed and a walked edge leads from it straight to a
/// seed.
pub proof fn law_direct_are_callers_of_seeds(edges: Seq<Edge>, seeds: Seq<Seq<char>>, y: Seq<char>)
    ensures
        (exists|i: int| 0 <= i < reached(edges, seeds).1.len() && #[trigger] reached(edges, seeds).1[i].id == y
            && reached(edges, seeds).1[i].direct) <==> (!seeds.contains(y) && exists|k: int|
            0 <= k < edges.len() && walks_back(#[trigger] edges[k].kind) && edges[k].from.0@ == y && seeds.contains(
                edges[k].to.0@,
            )),
{
    lemma_reached(edges, seeds);
    let f = reached(edges, seeds).1;
    if exists|i: int| 0 <= i < f.len() && #[trigger] f[i].id == y && f[i].direct {
        let i = choose|i: int| 0 <= i < f.len() && #[trigger] f[i].id == y && f[i].direct;
        assert(link_ok(edges, seeds, f, i));
        let k = f[i].edge;
        assert(walks_back(edges[k].kind) && edges[k].from.0@ == y && seeds.contains(edges[k].to.0@));
    }
    if !seeds.contains(y) && exists|k: int|
        0 <= k < edges.len() && walks_back(#[trigger] edges[k].kind) && edges[k].from.0@ == y && seeds.contains(edges[k].to.0@) {
        let k = choose|k: int|
            0 <= k < edges.len() && walks_back(#[trigger] edges[k].kind) && edges[k].from.0@ == y && seeds.contains(
                edges[k].to.0@,
            );
        let fr = seed_frontier(seeds);
        let v0 = seeds.to_set();
        let e0 = Seq::<ReachView>::empty();
        let st0 = WalkView { visited: v0, found: e0, next: Seq::empty() };
        assert(v0 =~= seeds.to_set().union(found_ids(e0)));
        assert(entry_ids(fr).union(heur_ids(e0)) =~= entry_ids(fr));
        assert forall|q: int| 0 <= q < fr.len() implies entry_ok(seeds, e0, #[trigger] fr[q]) && (true <==> fr[q].1 is None) by {
            assert(fr[q] == (seeds[q], None::<int>));
            assert(seeds.contains(seeds[q]));
        }
        assert forall|kk: int|
            0 <= kk < edges.len() && walks_back(#[trigger] edges[kk].kind) && v0.contains(edges[kk].to.0@)
                && !entry_ids(fr).contains(edges[kk].to.0@) implies v0.contains(edges[kk].from.0@) by {
            let t = edges[kk].to.0@;
            let q = choose|q: int| 0 <= q < seeds.len() && seeds[q] == t;
            assert(fr[q].0 == t);
        }
        lemma_sweep(edges, seeds, st0, fr, true, fr.len() as int);
        assert(fr.take(fr.len() as int) =~= fr);
        let s1 = sweep(edges, st0, fr, true);
        assert(fr.len() > 0);
        assert(reached(edges, seeds) == bfs(edges, s1.visited, s1.found, s1.next, false, edges.len() as nat));
        assert(fr.skip(fr.len() as int) =~= Seq::<(Seq<char>, Option<int>)>::empty());
        assert(entry_ids(fr.skip(fr.len() as int)).union(entry_ids(s1.next)).union(heur_ids(s1.found)) =~= entry_ids(
            s1.next,
        ).union(heur_ids(s1.found)));
        let t = edges[k].to.0@;
        assert(v0.contains(t));
        assert(s1.visited.contains(t));
        assert(!entry_ids(s1.next).contains(t)) by {
            if entry_ids(s1.next).contains(t) {
                let j = choose|j: int| 0 <= j < s1.next.len() && #[trigger] s1.next[j].0 == t;
                assert(entry_ok(seeds, s1.found, s1.next[j]));
                let g = s1.next[j].1.unwrap();
                assert(link_ok(edges, seeds, s1.found, g));
            }
        }
        assert(!heur_ids(s1.found).contains(t)) by {
            if heur_ids(s1.found).contains(t) {
                let g = choose|g: int| 0 <= g < s1.found.len() && #[trigger] s1.found[g].id == t && s1.found[g].confidence
                    == Confidence::Heuristic;
                assert(link_ok(edges, seeds, s1.found, g));
            }
        }
        assert(s1.visited.contains(y));
        assert(found_ids(s1.found).contains(y));
        let i = choose|i: int| 0 <= i < s1.found.len() && #[trigger] s1.found[i].id == y;
        assert(s1.found[i].direct);
        assert forall|q: int| 0 <= q < s1.next.len() implies entry_ok(seeds, s1.found, #[trigger] s1.next[q]) && (false <==> s1.next[q].1 is None) by {
        }
        lemma_bfs(edges, seeds, s1.visited, s1.found, s1.next, false, edges.len() as nat);
        assert(f.take(s1.found.len() as int)[i] == s1.found[i]);
        assert(f[i].id == y && f[i].direct);
    }
}

/// A direct dependent has nothing between it and the seeds: its `via` chain is empty.
pub proof fn law_direct_entries_have_no_via(nodes: Seq<Node>, edges: Seq<Edge>, seeds: Seq<Seq<char>>, n: Seq<char>)
    requires
        bucket(nodes, reached(edges, seeds).1, true).contains_key(n),
    ensures
        via_of(nodes, reached(edges, seeds).1, bucket(nodes, reached(edges, seeds).1, true)[n].1) == Seq::<Seq<char>>::empty(),
{
    lemma_reached(edges, seeds);
    let f = reached(edges, seeds).1;
    lemma_bucket(nodes, f, true);
    let at = bucket(nodes, f, true)[n].1;
    assert(link_ok(edges, seeds, f, at));
}

/// Filtering by confidence keeps exactly the entries at or above the floor, in order.
pub proof fn law_filter_keeps_exactly(ds: Seq<DependentView>, min: Confidence)
    ensures
        forall|i: int| 0 <= i < at_least_of(ds, min).len() ==> rank(#[trigger] at_least_of(ds, min)[i].confidence) >= rank(min),
        forall|i: int| 0 <= i < ds.len() && rank(#[trigger] ds[i].confidence) >= rank(min) ==> at_least_of(ds, min).contains(ds[i]),
        forall|i: int| 0 <= i < at_least_of(ds, min).len() ==> ds.contains(#[trigger] at_least_of(ds, min)[i]),
    decreases ds.len(),
{
    if ds.len() > 0 {
        let d = ds.drop_last();
        law_filter_keeps_exactly(d, min);
        let r = at_least_of(d, min);
        let k = at_least_of(ds, min);
        assert forall|i: int| 0 <= i < k.len() implies ds.contains(#[trigger] k[i]) by {
            if i < r.len() {
                assert(k[i] == r[i]);
                let j = choose|j: int| 0 <= j < d.len() && d[j] == r[i];
                assert(ds[j] == d[j]);
            } else {
                assert(ds[ds.len() - 1] == k[i]);
            }
        }
        assert forall|i: int| 0 <= i < ds.len() && rank(#[trigger] ds[i].confidence) >= rank(min) implies k.contains(ds[i]) by {
            if i < d.len() {
                assert(d[i] == ds[i]);
                let j = choose|j: int| 0 <= j < r.len() && r[j] == d[i];
                assert(k[j] == r[j]);
            } else {
                assert(k[k.len() - 1] == ds[i]);
            }
        }
        assert forall|i: int| 0 <= i < k.len() implies rank(#[trigger] k[i].confidence) >= rank(min) by {
            if i < r.len() {
                assert(k[i] == r[i]);
            }
        }
    }
}

/// A report section is determined by what it lists: two sections listing the same
/// dependents of the same walk are the same, entry for entry.
proof fn lemma_section_unique(
    d1: Seq<Dependent>,
    d2: Seq<Dependent>,
    m: Map<Seq<char>, (Confidence, int)>,
    nodes: Seq<Node>,
    found: Seq<ReachView>,
)
    requires
        section_holds(d1, m, nodes, found),
        section_holds(d2, m, nodes, found),
    ensures
        dependent_views(d1) == dependent_views(d2),
{
    let p1 = dependent_paths(d1);
    let p2 = dependent_paths(d2);
    assert forall|x: Seq<char>| p1.to_set().contains(x) implies p2.to_set().contains(x) by {
        let i = choose|i: int| 0 <= i < p1.len() && p1[i] == x;
        assert(m.contains_key(d1[i].path@));
        let j = choose|j: int| 0 <= j < d2.len() && #[trigger] d2[j].path@ == x;
        assert(p2[j] == x);
    }
    assert forall|x: Seq<char>| p2.to_set().contains(x) implies p1.to_set().contains(x) by {
        let i = choose|i: int| 0 <= i < p2.len() && p2[i] == x;
        assert(m.contains_key(d2[i].path@));
        let j = choose|j: int| 0 <= j < d1.len() && #[trigger] d1[j].path@ == x;
        assert(p1[j] == x);
    }
    assert(p1.to_set() =~= p2.to_set());
    lemma_sorted_unique(p1, p2);
    assert forall|i: int| 0 <= i < d1.len() implies dependent_views(d1)[i] == dependent_views(d2)[i] by {
        assert(p1[i] == p2[i]);
    }
    assert(dependent_views(d1) =~= dependent_views(d2));
}

/// The report is a function of the graph and the seeds: two reports that both answer
/// the same seeds over the same graph are the same report, entry for entry and in the
/// same order. Asked twice, the same graph gives the same answer.
pub proof fn law_report_is_determined(
    nodes: Seq<Node>,
    edges: Seq<Edge>,
    seeds: Seq<Seq<char>>,
    r1: ImpactReport,
    r2: ImpactReport,
)
    requires
        report_holds(nodes, edges, seeds, r1),
        report_holds(nodes, edges, seeds, r2),
    ensures
        r1@ == r2@,
{
    let found = reached(edges, seeds).1;
    lemma_section_unique(r1.direct@, r2.direct@, bucket(nodes, found, true), nodes, found);
    lemma_section_unique(r1.indirect@, r2.indirect@, bucket(nodes, found, false), nodes, found);
    lemma_section_unique(r1.affected_tests@, r2.affected_tests@, affected(nodes, found), nodes, found);
    lemma_sorted_unique(string_views(r1.api@), string_views(r2.api@));
    lemma_sorted_unique(string_views(r1.events@), string_views(r2.events@));
    lemma_sorted_unique(string_views(r1.database@), string_views(r2.database@));
    assert(r1.affected_tests@.len() == dependent_views(r1.affected_tests@).len());
    assert(r2.affected_tests@.len() == dependent_views(r2.affected_tests@).len());
}

/// The affected tests are exactly the test dependents: each is an entry of the direct or
/// the indirect list, with the same file, line, confidence and chain, and its node is a
/// test; and every dependent whose node is a test is among them.
pub proof fn law_affected_tests_are_listed_dependents(
    nodes: Seq<Node>,
    edges: Seq<Edge>,
    seeds: Seq<Seq<char>>,
    r: ImpactReport,
)
    requires
        report_holds(nodes, edges, seeds, r),
    ensures
        forall|i: int| 0 <= i < r.affected_tests@.len() ==> {
            let t = #[trigger] r.affected_tests@[i]@;
            (exists|j: int| 0 <= j < r.direct@.len() && r.direct@[j]@ == t) || (exists|j: int|
                0 <= j < r.indirect@.len() && r.indirect@[j]@ == t)
        },
        forall|i: int| 0 <= i < r.affected_tests@.len() ==> #[trigger] affected(
            nodes,
            reached(edges, seeds).1,
        ).contains_key(r.affected_tests@[i].path@) && is_test_at(
            nodes,
            reached(edges, seeds).1,
            affected(nodes, reached(edges, seeds).1)[r.affected_tests@[i].path@].1,
        ),
        forall|j: int| 0 <= j < r.direct@.len() && is_test_at(
            nodes,
            reached(edges, seeds).1,
            bucket(nodes, reached(edges, seeds).1, true)[#[trigger] r.direct@[j].path@].1,
        ) ==> exists|i: int| 0 <= i < r.affected_tests@.len() && r.affected_tests@[i].path@ == r.direct@[j].path@,
        forall|j: int| 0 <= j < r.indirect@.len() && is_test_at(
            nodes,
            reached(edges, seeds).1,
            bucket(nodes, reached(edges, seeds).1, false)[#[trigger] r.indirect@[j].path@].1,
        ) ==> exists|i: int| 0 <= i < r.affected_tests@.len() && r.affected_tests@[i].path@ == r.indirect@[j].path@,
{
    let found = reached(edges, seeds).1;
    let dm = bucket(nodes, found, true);
    let im = bucket(nodes, found, false);
    let am = affected(nodes, found);
    let dt = tests_in(nodes, found, dm);
    let it = tests_in(nodes, found, im);
    assert forall|i: int| 0 <= i < r.affected_tests@.len() implies ({
        let t = #[trigger] r.affected_tests@[i]@;
        (exists|j: int| 0 <= j < r.direct@.len() && r.direct@[j]@ == t) || (exists|j: int|
            0 <= j < r.indirect@.len() && r.indirect@[j]@ == t)
    }) by {
        let p = r.affected_tests@[i].path@;
        assert(am.contains_key(p));
        if it.contains_key(p) {
            assert(am[p] == im[p]);
            assert(im.contains_key(p));
            let j = choose|j: int| 0 <= j < r.indirect@.len() && #[trigger] r.indirect@[j].path@ == p;
            assert(r.indirect@[j]@ == r.affected_tests@[i]@);
        } else {
            assert(dt.contains_key(p));
            assert(am[p] == dm[p]);
            assert(dm.contains_key(p));
            let j = choose|j: int| 0 <= j < r.direct@.len() && #[trigger] r.direct@[j].path@ == p;
            assert(r.direct@[j]@ == r.affected_tests@[i]@);
        }
    }
    assert forall|i: int| 0 <= i < r.affected_tests@.len() implies #[trigger] am.contains_key(r.affected_tests@[i].path@)
        && is_test_at(nodes, found, am[r.affected_tests@[i].path@].1) by {
        let p = r.affected_tests@[i].path@;
        if it.contains_key(p) {
            assert(am[p] == it[p]);
        } else {
            assert(am[p] == dt[p]);
        }
    }
    assert forall|j: int| 0 <= j < r.direct@.len() && is_test_at(nodes, found, dm[#[trigger] r.direct@[j].path@].1)
        implies exists|i: int| 0 <= i < r.affected_tests@.len() && r.affected_tests@[i].path@ == r.direct@[j].path@ by {
        let p = r.direct@[j].path@;
        assert(dt.contains_key(p));
        assert(am.contains_key(p));
    }
    assert forall|j: int| 0 <= j < r.indirect@.len() && is_test_at(nodes, found, im[#[trigger] r.indirect@[j].path@].1)
        implies exists|i: int| 0 <= i < r.affected_tests@.len() && r.affected_tests@[i].path@ == r.indirect@[j].path@ by {
        let p = r.indirect@[j].path@;
        assert(it.contains_key(p));
        assert(am.contains_key(p));
    }
}

// ---------------------------------------------------------------------------------------
// Edges the walk does not follow
// ---------------------------------------------------------------------------------------
proof fn lemma_callers_unwalked(edges: Seq<Edge>, e: Edge, x: Seq<char>)
    requires
        !walks_back(e.kind),
    ensures
        callers_of(edges.push(e), x) == callers_of(edges, x),
{
    let n = edges.len();
    let ee = edges.push(e);
    assert(!caller_family(ee)(x)(n as int));
    assert forall|i: int| 0 <= i < n implies #[trigger] caller_family(ee)(x)(i) == caller_family(edges)(x)(i) by {
        assert(ee[i] == edges[i]);
    }
    lemma_select_ext(n, caller_family(ee)(x), caller_family(edges)(x));
    assert(select((n + 1) as nat, caller_family(ee)(x)) == select(n, caller_family(ee)(x)));
}

proof fn lemma_visit_unwalked(
    edges: Seq<Edge>,
    e: Edge,
    st: WalkView,
    xc: Confidence,
    xi: Option<int>,
    first: bool,
    ks: Seq<int>,
)
    requires
        forall|q: int| 0 <= q < ks.len() ==> 0 <= #[trigger] ks[q] < edges.len(),
    ensures
        visit(edges.push(e), st, xc, xi, first, ks) == visit(edges, st, xc, xi, first, ks),
    decreases ks.len(),
{
    if ks.len() > 0 {
        assert forall|q: int| 0 <= q < ks.drop_last().len() implies 0 <= #[trigger] ks.drop_last()[q] < edges.len() by {
            assert(ks.drop_last()[q] == ks[q]);
        }
        lemma_visit_unwalked(edges, e, st, xc, xi, first, ks.drop_last());
        assert(ks[ks.len() - 1] == ks.last());
        assert(edges.push(e)[ks.last()] == edges[ks.last()]);
    }
}

proof fn lemma_sweep_unwalked(edges: Seq<Edge>, e: Edge, st: WalkView, fr: Seq<(Seq<char>, Option<int>)>, first: bool)
    requires
        !walks_back(e.kind),
    ensures
        sweep(edges.push(e), st, fr, first) == sweep(edges, st, fr, first),
    decreases fr.len(),
{
    if fr.len() > 0 {
        lemma_sweep_unwalked(edges, e, st, fr.drop_last(), first);
        let s = sweep(edges, st, fr.drop_last(), first);
        let x = fr.last();
        lemma_callers_unwalked(edges, e, x.0);
        lemma_select(edges.len(), caller_family(edges)(x.0));
        lemma_visit_unwalked(edges, e, s, conf_at(s.found, x.1), x.1, first, callers_of(edges, x.0));
    }
}

proof fn lemma_bfs_unwalked(
    edges: Seq<Edge>,
    e: Edge,
    visited: Set<Seq<char>>,
    found: Seq<ReachView>,
    frontier: Seq<(Seq<char>, Option<int>)>,
    first: bool,
    fuel: nat,
)
    requires
        !walks_back(e.kind),
    ensures
        bfs(edges.push(e), visited, found, frontier, first, fuel) == bfs(edges, visited, found, frontier, first, fuel),
    decreases fuel,
{
    if fuel > 0 && frontier.len() > 0 {
        let st = WalkView { visited, found, next: Seq::empty() };
        lemma_sweep_unwalked(edges, e, st, frontier, first);
        let s = sweep(edges, st, frontier, first);
        lemma_bfs_unwalked(edges, e, s.visited, s.found, s.next, false, (fuel - 1) as nat);
    }
}

/// Once the walk has enough fuel to finish, more fuel changes nothing.
#[verifier::spinoff_prover]
proof fn lemma_bfs_more_fuel(
    edges: Seq<Edge>,
    seeds: Seq<Seq<char>>,
    visited: Set<Seq<char>>,
    found: Seq<ReachView>,
    frontier: Seq<(Seq<char>, Option<int>)>,
    first: bool,
    fuel: nat,
)
    requires
        walk_ok(edges, seeds, WalkView { visited, found, next: Seq::empty() }, found.len() as int),
        forall|q: int| 0 <= q < frontier.len() ==> entry_ok(seeds, found, #[trigger] frontier[q]) && (first <==> frontier[q].1 is None),
        closed_except(edges, visited, entry_ids(frontier).union(heur_ids(found))),
        frontier.len() > 0 ==> fuel + found.len() > edges.len(),
    ensures
        bfs(edges, visited, found, frontier, first, fuel + 1) == bfs(edges, visited, found, frontier, first, fuel),
    decreases fuel,
{
    let st0 = WalkView { visited, found, next: Seq::empty() };
    if frontier.len() == 0 {
    } else if fuel == 0 {
        lemma_found_bound(edges, visited, found);
    } else {
        lemma_sweep(edges, seeds, st0, frontier, first, frontier.len() as int);
        assert(frontier.take(frontier.len() as int) =~= frontier);
        let s = sweep(edges, st0, frontier, first);
        assert(frontier.skip(frontier.len() as int) =~= Seq::<(Seq<char>, Option<int>)>::empty());
        assert(entry_ids(frontier.skip(frontier.len() as int)).union(entry_ids(s.next)).union(heur_ids(s.found))
            =~= entry_ids(s.next).union(heur_ids(s.found)));
        assert forall|q: int| 0 <= q < s.next.len() implies entry_ok(seeds, s.found, #[trigger] s.next[q]) && (false <==> s.next[q].1 is None) by {
        }
        lemma_bfs_more_fuel(edges, seeds, s.visited, s.found, s.next, false, (fuel - 1) as nat);
        assert(bfs(edges, visited, found, frontier, first, fuel + 1) == bfs(edges, s.visited, s.found, s.next, false, fuel));
        assert(bfs(edges, visited, found, frontier, first, fuel) == bfs(edges, s.visited, s.found, s.next, false, (fuel - 1) as nat));
    }
}

/// Edges the walk does not follow (implements, contains, imports) change nothing: adding
/// one to a graph leaves the walk as it was, and a report answers the seeds over the
/// larger graph exactly when it answers them over the smaller one.
pub proof fn law_unwalked_edges_change_nothing(
    nodes: Seq<Node>,
    edges: Seq<Edge>,
    seeds: Seq<Seq<char>>,
    e: Edge,
    r: ImpactReport,
)
    requires
        !walks_back(e.kind),
    ensures
        reached(edges.push(e), seeds) == reached(edges, seeds),
        report_holds(nodes, edges.push(e), seeds, r) == report_holds(nodes, edges, seeds, r),
{
    let ee = edges.push(e);
    let fr = seed_frontier(seeds);
    let v0 = seeds.to_set();
    let f0 = Seq::<ReachView>::empty();
    let n = edges.len();
    lemma_bfs_unwalked(edges, e, v0, f0, fr, true, (n + 2) as nat);
    assert(v0 =~= seeds.to_set().union(found_ids(f0)));
    assert(entry_ids(fr).union(heur_ids(f0)) =~= entry_ids(fr));
    assert forall|q: int| 0 <= q < fr.len() implies entry_ok(seeds, f0, #[trigger] fr[q]) && (true <==> fr[q].1 is None) by {
        assert(fr[q] == (seeds[q], None::<int>));
        assert(seeds.contains(seeds[q]));
    }
    assert forall|kk: int|
        0 <= kk < edges.len() && walks_back(#[trigger] edges[kk].kind) && v0.contains(edges[kk].to.0@)
            && !entry_ids(fr).contains(edges[kk].to.0@) implies v0.contains(edges[kk].from.0@) by {
        let t = edges[kk].to.0@;
        let q = choose|q: int| 0 <= q < seeds.len() && seeds[q] == t;
        assert(fr[q].0 == t);
    }
    lemma_bfs_more_fuel(edges, seeds, v0, f0, fr, true, (n + 1) as nat);
    let v = reached(edges, seeds).0;
    assert forall|kind: ContractKind| contract_names(nodes, ee, v, kind, ee.len() as int) == contract_names(nodes, edges, v, kind, n as int) by {
        assert forall|p: Seq<char>| contract_names(nodes, ee, v, kind, ee.len() as int).contains(p) <==> contract_names(
            nodes,
            edges,
            v,
            kind,
            n as int,
        ).contains(p) by {
            if contract_names(nodes, ee, v, kind, ee.len() as int).contains(p) {
                let k = choose|k: int| 0 <= k < ee.len() && #[trigger] contract_hit(nodes, ee, v, kind, k, p);
                assert(k != n);
                assert(ee[k] == edges[k]);
                assert(contract_hit(nodes, edges, v, kind, k, p));
            }
            if contract_names(nodes, edges, v, kind, n as int).contains(p) {
                let k = choose|k: int| 0 <= k < n && #[trigger] contract_hit(nodes, edges, v, kind, k, p);
                assert(ee[k] == edges[k]);
                assert(contract_hit(nodes, ee, v, kind, k, p));
            }
        }
        assert(contract_names(nodes, ee, v, kind, ee.len() as int) =~= contract_names(nodes, edges, v, kind, n as int));
    }
    assert(contract_names(nodes, ee, v, ContractKind::ApiRoute, ee.len() as int) == contract_names(nodes, edges, v, ContractKind::ApiRoute, n as int));
    assert(contract_names(nodes, ee, v, ContractKind::Event, ee.len() as int) == contract_names(nodes, edges, v, ContractKind::Event, n as int));
    assert(contract_names(nodes, ee, v, ContractKind::Table, ee.len() as int) == contract_names(nodes, edges, v, ContractKind::Table, n as int));
}

} // verus!
