//! Several indexed projects side by side: which contracts one project's blast radius
//! touches in the others, and how far each such match can be trusted.
use vstd::prelude::*;

use crate::engine::{string_views, ImpactReport};
use crate::graph::{ContractKind, Node, NodeKind, SymbolGraph};
use crate::order::{lemma_lex_irreflexive, lemma_lex_total, lemma_lex_transitive, lex_less, lex_lt};
use crate::text::{chars_of, concat_chars, str_eq, string_of};

verus! {

broadcast use vstd::seq_lib::to_multiset_build, vstd::seq_lib::to_multiset_insert;

/// One project of a workspace. `path` and `cache_dir` are resolved against the workspace
/// file's directory when the workspace is loaded.
#[derive(Debug, Clone)]
pub struct WorkspaceProject {
    pub id: String,
    pub path: String,
    /// Where this project's index cache lives, if not the `<path>/.impact` default.
    pub cache_dir: Option<String>,
}

/// A produce/consume relationship a human declared. Each side is either
/// `"<project_id>:<contract_id>"` (one exact contract) or a bare `"<project_id>"` (the
/// two projects are related, without saying through which contract).
#[derive(Debug, Clone)]
pub struct WorkspaceLink {
    pub produces: String,
    pub consumes: String,
}

#[derive(Debug, Clone)]
pub struct Workspace {
    pub projects: Vec<WorkspaceProject>,
    pub links: Vec<WorkspaceLink>,
}

/// Whether a path is absolute (it starts at the root).
pub open spec fn is_absolute(p: Seq<char>) -> bool {
    p.len() > 0 && p[0] == '/'
}

/// `Path::join` for a relative `p`: `base`, a `/` unless `base` is empty or already ends
/// in one, then `p`; an absolute `p` replaces `base`.
pub open spec fn joined(base: Seq<char>, p: Seq<char>) -> Seq<char> {
    if is_absolute(p) {
        p
    } else if base.len() == 0 || base.last() == '/' {
        base + p
    } else {
        base + seq!['/'] + p
    }
}

fn join_path_text(base: &str, p: &str) -> (r: String)
    ensures
        r@ == joined(base@, p@),
{
    let b = chars_of(base);
    let q = chars_of(p);
    if q.len() > 0 && q[0] == '/' {
        return string_of(q.as_slice());
    }
    if b.len() == 0 || b[b.len() - 1] == '/' {
        let r = concat_chars(b.as_slice(), q.as_slice());
        string_of(r.as_slice())
    } else {
        let mut bs = b;
        bs.push('/');
        let r = concat_chars(bs.as_slice(), q.as_slice());
        proof {
            assert(r@ =~= b@ + seq!['/'] + q@);
        }
        string_of(r.as_slice())
    }
}

pub open spec fn project_views(ps: Seq<WorkspaceProject>) -> Seq<(Seq<char>, Seq<char>, Option<Seq<char>>)> {
    ps.map_values(
        |p: WorkspaceProject|
            (
                p.id@,
                p.path@,
                match p.cache_dir {
                    Some(c) => Some(c@),
                    None => None,
                },
            ),
    )
}

/// A project with its relative paths resolved against `base`.
pub open spec fn resolved(base: Seq<char>, p: (Seq<char>, Seq<char>, Option<Seq<char>>)) -> (Seq<char>, Seq<char>, Option<Seq<char>>) {
    (
        p.0,
        joined(base, p.1),
        match p.2 {
            Some(c) => Some(joined(base, c)),
            None => None,
        },
    )
}

impl Workspace {
    /// Resolves every project's relative `path` and `cache_dir` against `base` (the
    /// directory the workspace file lives in), so a workspace written with `../web` keeps
    /// working wherever it is read from.
    pub fn resolve_paths(&mut self, base: &str)
        ensures
            project_views(final(self).projects@) == project_views(old(self).projects@).map_values(
                |p: (Seq<char>, Seq<char>, Option<Seq<char>>)| resolved(base@, p),
            ),
            final(self).links@ == old(self).links@,
    {
        let ghost before = project_views(self.projects@);
        let mut i: usize = 0;
        while i < self.projects.len()
            invariant
                i <= self.projects@.len(),
                before.len() == self.projects@.len(),
                self.links@ == old(self).links@,
                before == project_views(old(self).projects@),
                forall|k: int| 0 <= k < i ==> #[trigger] project_views(self.projects@)[k] == resolved(base@, before[k]),
                forall|k: int| i <= k < self.projects@.len() ==> #[trigger] project_views(self.projects@)[k] == before[k],
            decreases self.projects@.len() - i,
        {
            let ghost prev = self.projects@;
            let path = join_path_text(base, self.projects[i].path.as_str());
            let cache = match &self.projects[i].cache_dir {
                Some(c) => Some(join_path_text(base, c.as_str())),
                None => None,
            };
            let id = self.projects[i].id.clone();
            self.projects.set(i, WorkspaceProject { id, path, cache_dir: cache });
            proof {
                assert(project_views(prev)[i as int] == before[i as int]);
                assert forall|k: int| 0 <= k < i + 1 implies #[trigger] project_views(self.projects@)[k] == resolved(base@, before[k]) by {
                    if k < i {
                        assert(self.projects@[k] == prev[k]);
                        assert(project_views(prev)[k] == resolved(base@, before[k]));
                    }
                }
                assert forall|k: int| i + 1 <= k < self.projects@.len() implies #[trigger] project_views(self.projects@)[k] == before[k] by {
                    assert(self.projects@[k] == prev[k]);
                    assert(project_views(prev)[k] == before[k]);
                }
            }
            i = i + 1;
        }
        proof {
            assert(project_views(self.projects@) =~= before.map_values(
                |p: (Seq<char>, Seq<char>, Option<Seq<char>>)| resolved(base@, p),
            ));
        }
    }

    /// Where `project`'s index cache lives: its explicit `cache_dir`, or the
    /// `<path>/.impact` default every other command uses.
    pub fn cache_dir_for(&self, project: &WorkspaceProject) -> (r: String)
        ensures
            r@ == match project.cache_dir {
                Some(c) => c@,
                None => joined(project.path@, ".impact"@),
            },
    {
        match &project.cache_dir {
            Some(c) => c.clone(),
            None => join_path_text(project.path.as_str(), ".impact"),
        }
    }
}

/// How far a cross-project contract match can be trusted. Deliberately tiers, not a
/// score: the same workspace and graphs always give the same tier.
#[derive(Debug, Clone, Copy, PartialEq, Eq, Structural)]
pub enum LinkConfidence {
    /// A link names this exact contract on at least one side.
    Declared,
    /// No link names this contract, but one relates the two projects generally.
    Strong,
    /// Identity match only: nothing relates the two projects.
    Weak,
}

pub open spec fn link_views(ls: Seq<WorkspaceLink>) -> Seq<(Seq<char>, Seq<char>)> {
    ls.map_values(|l: WorkspaceLink| (l.produces@, l.consumes@))
}

/// `project:contract`.
pub open spec fn qualified(project: Seq<char>, contract: Seq<char>) -> Seq<char> {
    project + seq![':'] + contract
}

/// Whether `link` (produces, consumes), read either way, pairs a side naming
/// `exact` with a side naming `project` bare or as `project_contract`.
pub open spec fn pairs(link: (Seq<char>, Seq<char>), exact: Seq<char>, project: Seq<char>, project_contract: Seq<char>) -> bool {
    (link.0 == exact && (link.1 == project || link.1 == project_contract)) || (link.1 == exact && (link.0 == project
        || link.0 == project_contract))
}

/// The tier of a match of `contract` between `source` and `other`.
pub open spec fn link_tier(links: Seq<(Seq<char>, Seq<char>)>, source: Seq<char>, other: Seq<char>, contract: Seq<char>) -> LinkConfidence {
    let sq = qualified(source, contract);
    let oq = qualified(other, contract);
    if exists|i: int| 0 <= i < links.len() && (pairs(#[trigger] links[i], sq, other, oq) || pairs(links[i], oq, source, sq)) {
        LinkConfidence::Declared
    } else if exists|i: int| 0 <= i < links.len() && ((#[trigger] links[i].0 == source && links[i].1 == other) || (links[i].1
        == source && links[i].0 == other)) {
        LinkConfidence::Strong
    } else {
        LinkConfidence::Weak
    }
}

/// A match's tier does not depend on which of the two projects is the source: reading
/// the workspace's links from either side gives the same tier.
pub proof fn law_link_tier_is_symmetric(
    links: Seq<(Seq<char>, Seq<char>)>,
    source: Seq<char>,
    other: Seq<char>,
    contract: Seq<char>,
)
    ensures
        link_tier(links, source, other, contract) == link_tier(links, other, source, contract),
{
    let sq = qualified(source, contract);
    let oq = qualified(other, contract);
    assert((exists|i: int| 0 <= i < links.len() && (#[trigger] pairs(links[i], sq, other, oq) || pairs(links[i], oq, source, sq)))
        == (exists|i: int| 0 <= i < links.len() && (#[trigger] pairs(links[i], oq, source, sq) || pairs(links[i], sq, other, oq))));
}

fn pairs_exec(link: &WorkspaceLink, exact: &str, project: &str, project_contract: &str) -> (b: bool)
    ensures
        b == pairs((link.produces@, link.consumes@), exact@, project@, project_contract@),
{
    let names_consumer = str_eq(link.consumes.as_str(), project) || str_eq(link.consumes.as_str(), project_contract);
    let names_producer = str_eq(link.produces.as_str(), project) || str_eq(link.produces.as_str(), project_contract);
    (str_eq(link.produces.as_str(), exact) && names_consumer) || (str_eq(link.consumes.as_str(), exact) && names_producer)
}

fn qualify(project: &str, contract: &str) -> (r: String)
    ensures
        r@ == qualified(project@, contract@),
{
    let mut p = chars_of(project);
    p.push(':');
    let c = chars_of(contract);
    let r = concat_chars(p.as_slice(), c.as_slice());
    string_of(r.as_slice())
}

fn link_confidence(workspace: &Workspace, source: &str, other: &str, contract_id: &str) -> (c: LinkConfidence)
    ensures
        c == link_tier(link_views(workspace.links@), source@, other@, contract_id@),
{
    let ghost ls = link_views(workspace.links@);
    let sq = qualify(source, contract_id);
    let oq = qualify(other, contract_id);
    let mut i: usize = 0;
    while i < workspace.links.len()
        invariant
            i <= workspace.links@.len(),
            ls == link_views(workspace.links@),
            sq@ == qualified(source@, contract_id@),
            oq@ == qualified(other@, contract_id@),
            forall|k: int| 0 <= k < i ==> !(pairs(#[trigger] ls[k], sq@, other@, oq@) || pairs(ls[k], oq@, source@, sq@)),
        decreases workspace.links@.len() - i,
    {
        let link = &workspace.links[i];
        if pairs_exec(link, sq.as_str(), other, oq.as_str()) || pairs_exec(link, oq.as_str(), source, sq.as_str()) {
            proof {
                assert(ls[i as int] == (link.produces@, link.consumes@));
            }
            return LinkConfidence::Declared;
        }
        i = i + 1;
    }
    let mut j: usize = 0;
    while j < workspace.links.len()
        invariant
            j <= workspace.links@.len(),
            ls == link_views(workspace.links@),
            sq@ == qualified(source@, contract_id@),
            oq@ == qualified(other@, contract_id@),
            forall|k: int| 0 <= k < ls.len() ==> !(pairs(#[trigger] ls[k], sq@, other@, oq@) || pairs(ls[k], oq@, source@, sq@)),
            forall|k: int| 0 <= k < j ==> !((#[trigger] ls[k].0 == source@ && ls[k].1 == other@) || (ls[k].1 == source@ && ls[k].0 == other@)),
        decreases workspace.links@.len() - j,
    {
        let link = &workspace.links[j];
        let p = link.produces.as_str();
        let q = link.consumes.as_str();
        if (str_eq(p, source) && str_eq(q, other)) || (str_eq(q, source) && str_eq(p, other)) {
            proof {
                assert(ls[j as int] == (link.produces@, link.consumes@));
            }
            return LinkConfidence::Strong;
        }
        j = j + 1;
    }
    LinkConfidence::Weak
}

/// A contract of this project's blast radius that another workspace project also has.
#[derive(Debug, Clone, PartialEq, Eq)]
pub struct CrossProjectMatch {
    pub project_id: String,
    pub contract_kind: ContractKind,
    pub contract_id: String,
    pub confidence: LinkConfidence,
}

pub struct MatchView {
    pub project_id: Seq<char>,
    pub contract_kind: ContractKind,
    pub contract_id: Seq<char>,
    pub confidence: LinkConfidence,
}

impl View for CrossProjectMatch {
    type V = MatchView;

    open spec fn view(&self) -> MatchView {
        MatchView {
            project_id: self.project_id@,
            contract_kind: self.contract_kind,
            contract_id: self.contract_id@,
            confidence: self.confidence,
        }
    }
}

/// A local report extended with what it touches in the other workspace projects.
#[derive(Debug)]
pub struct WorkspaceImpactReport {
    pub local: ImpactReport,
    pub cross_project: Vec<CrossProjectMatch>,
}

/// Contract kinds in the order their names sort (`ApiRoute`, `Event`, `Table`, `Test`).
pub open spec fn kind_rank(k: ContractKind) -> int {
    match k {
        ContractKind::ApiRoute => 0,
        ContractKind::Event => 1,
        ContractKind::Table => 2,
        ContractKind::Test => 3,
    }
}

/// Report order: by project, then contract kind (by name), then contract id.
pub open spec fn match_before(a: MatchView, b: MatchView) -> bool {
    lex_lt(a.project_id, b.project_id) || (a.project_id == b.project_id && (kind_rank(a.contract_kind) < kind_rank(
        b.contract_kind,
    ) || (a.contract_kind == b.contract_kind && lex_lt(a.contract_id, b.contract_id))))
}

pub open spec fn match_views(v: Seq<CrossProjectMatch>) -> Seq<MatchView> {
    v.map_values(|m: CrossProjectMatch| m@)
}

/// In report order (entries with equal keys may sit in either order).
pub open spec fn in_match_order(v: Seq<MatchView>) -> bool {
    forall|i: int, j: int| 0 <= i < j < v.len() ==> !match_before(#[trigger] v[j], #[trigger] v[i])
}

/// The contracts a report touches: its API routes, then events, then tables.
pub open spec fn touched_contracts(api: Seq<Seq<char>>, events: Seq<Seq<char>>, tables: Seq<Seq<char>>) -> Seq<(ContractKind, Seq<char>)> {
    tagged(api, ContractKind::ApiRoute) + tagged(events, ContractKind::Event) + tagged(tables, ContractKind::Table)
}

/// Whether `nodes` hold a contract of kind `kind` named `id`.
pub open spec fn has_contract(nodes: Seq<Node>, kind: ContractKind, id: Seq<char>) -> bool {
    exists|i: int| 0 <= i < nodes.len() && #[trigger] nodes[i].kind == NodeKind::Contract(kind) && nodes[i].qualified_path@ == id
}

/// The matches of `contracts` in the project `other` (with nodes `nodes`), in contract
/// order.
pub open spec fn matches_in(
    links: Seq<(Seq<char>, Seq<char>)>,
    source: Seq<char>,
    other: Seq<char>,
    nodes: Seq<Node>,
    contracts: Seq<(ContractKind, Seq<char>)>,
) -> Seq<MatchView>
    decreases contracts.len(),
{
    if contracts.len() == 0 {
        Seq::empty()
    } else {
        let r = matches_in(links, source, other, nodes, contracts.drop_last());
        let c = contracts.last();
        if has_contract(nodes, c.0, c.1) {
            r.push(MatchView { project_id: other, contract_kind: c.0, contract_id: c.1, confidence: link_tier(links, source, other, c.1) })
        } else {
            r
        }
    }
}

/// Every match, project by project.
pub open spec fn all_matches(
    links: Seq<(Seq<char>, Seq<char>)>,
    source: Seq<char>,
    others: Seq<(Seq<char>, Seq<Node>)>,
    contracts: Seq<(ContractKind, Seq<char>)>,
) -> Seq<MatchView>
    decreases others.len(),
{
    if others.len() == 0 {
        Seq::empty()
    } else {
        all_matches(links, source, others.drop_last(), contracts) + matches_in(
            links,
            source,
            others.last().0,
            others.last().1,
            contracts,
        )
    }
}

pub open spec fn graph_views(v: Seq<(String, SymbolGraph)>) -> Seq<(Seq<char>, Seq<Node>)> {
    v.map_values(|e: (String, SymbolGraph)| (e.0@, e.1.nodes_seq()))
}

fn match_less(a: &CrossProjectMatch, b: &CrossProjectMatch) -> (r: bool)
    ensures
        r == match_before(a@, b@),
{
    let ap = chars_of(a.project_id.as_str());
    let bp = chars_of(b.project_id.as_str());
    if lex_less(ap.as_slice(), bp.as_slice()) {
        return true;
    }
    if !str_eq(a.project_id.as_str(), b.project_id.as_str()) {
        return false;
    }
    let ka = kind_number(a.contract_kind);
    let kb = kind_number(b.contract_kind);
    if ka < kb {
        return true;
    }
    if ka != kb {
        return false;
    }
    let ac = chars_of(a.contract_id.as_str());
    let bc = chars_of(b.contract_id.as_str());
    proof {
        assert(a.contract_kind == b.contract_kind);
    }
    lex_less(ac.as_slice(), bc.as_slice())
}

fn kind_number(k: ContractKind) -> (n: u8)
    ensures
        n as int == kind_rank(k),
{
    match k {
        ContractKind::ApiRoute => 0,
        ContractKind::Event => 1,
        ContractKind::Table => 2,
        ContractKind::Test => 3,
    }
}

proof fn lemma_match_order(a: MatchView, b: MatchView, c: MatchView)
    ensures
        !match_before(a, a),
        match_before(a, b) && match_before(b, c) ==> match_before(a, c),
        !match_before(a, b) && !match_before(b, a) ==> a.project_id == b.project_id && a.contract_kind == b.contract_kind
            && a.contract_id == b.contract_id,
{
    lemma_lex_irreflexive(a.project_id);
    lemma_lex_irreflexive(a.contract_id);
    if match_before(a, b) && match_before(b, c) {
        if lex_lt(a.project_id, b.project_id) && lex_lt(b.project_id, c.project_id) {
            lemma_lex_transitive(a.project_id, b.project_id, c.project_id);
        }
        if lex_lt(a.contract_id, b.contract_id) && lex_lt(b.contract_id, c.contract_id) {
            lemma_lex_transitive(a.contract_id, b.contract_id, c.contract_id);
        }
    }
    lemma_lex_total(a.project_id, b.project_id);
    lemma_lex_total(a.contract_id, b.contract_id);
    if kind_rank(a.contract_kind) == kind_rank(b.contract_kind) {
        assert(a.contract_kind == b.contract_kind);
    }
}

/// Adds `m` after every entry that does not sort after it.
fn insert_match(v: &mut Vec<CrossProjectMatch>, m: CrossProjectMatch)
    requires
        in_match_order(match_views(old(v)@)),
    ensures
        in_match_order(match_views(final(v)@)),
        match_views(final(v)@).to_multiset() == match_views(old(v)@).to_multiset().insert(m@),
{
    let ghost s0 = match_views(v@);
    let mut p: usize = 0;
    while p < v.len() && !match_less(&m, &v[p])
        invariant
            p <= v@.len(),
            s0 == match_views(v@),
            in_match_order(s0),
            forall|i: int| 0 <= i < p ==> !match_before(m@, #[trigger] s0[i]),
        decreases v@.len() - p,
    {
        p = p + 1;
    }
    let ghost mv = m@;
    v.insert(p, m);
    proof {
        let s1 = match_views(v@);
        assert(s1 =~= s0.insert(p as int, mv));
        assert forall|i: int, j: int| 0 <= i < j < s1.len() implies !match_before(#[trigger] s1[j], #[trigger] s1[i]) by {
            if j < p {
                assert(s1[i] == s0[i] && s1[j] == s0[j]);
            } else if j == p {
                assert(s1[i] == s0[i]);
                lemma_match_order(s0[i], mv, mv);
                if match_before(mv, s0[i]) {
                } else {
                }
            } else if i < p {
                assert(s1[i] == s0[i] && s1[j] == s0[j - 1]);
                // s0[i] <= m < s0[p] <= s0[j-1]
                lemma_match_order(s0[j - 1], s0[i], mv);
                lemma_match_order(mv, s0[p as int], s0[j - 1]);
                lemma_match_order(s0[p as int], s0[j - 1], s0[i]);
                lemma_match_order(s0[j - 1], s0[p as int], mv);
            } else if i == p {
                assert(s1[j] == s0[j - 1]);
                lemma_match_order(s0[j - 1], mv, s0[p as int]);
                lemma_match_order(s0[j - 1], s0[p as int], mv);
                lemma_match_order(mv, s0[p as int], s0[j - 1]);
            } else {
                assert(s1[i] == s0[i - 1] && s1[j] == s0[j - 1]);
            }
        }
    }
}

fn has_contract_exec(graph: &SymbolGraph, kind: ContractKind, id: &str) -> (b: bool)
    ensures
        b == has_contract(graph.nodes_seq(), kind, id@),
{
    let nodes = graph.nodes();
    let mut i: usize = 0;
    while i < nodes.len()
        invariant
            i <= nodes@.len(),
            nodes@ == graph.nodes_seq(),
            forall|k: int| 0 <= k < i ==> !(#[trigger] nodes@[k].kind == NodeKind::Contract(kind) && nodes@[k].qualified_path@ == id@),
        decreases nodes@.len() - i,
    {
        let n = &nodes[i];
        let same_kind = match n.kind {
            NodeKind::Contract(k) => kind_number(k) == kind_number(kind),
            _ => false,
        };
        proof {
            if same_kind {
                if let NodeKind::Contract(k) = n.kind {
                    assert(kind_rank(k) == kind_rank(kind));
                    assert(k == kind);
                }
            }
        }
        if same_kind && str_eq(n.qualified_path.as_str(), id) {
            return true;
        }
        i = i + 1;
    }
    false
}

pub open spec fn keyed(v: Seq<(ContractKind, String)>) -> Seq<(ContractKind, Seq<char>)> {
    v.map_values(|c: (ContractKind, String)| (c.0, c.1@))
}

pub open spec fn tagged(names: Seq<Seq<char>>, k: ContractKind) -> Seq<(ContractKind, Seq<char>)> {
    names.map_values(|c: Seq<char>| (k, c))
}

fn append_tagged(v: &mut Vec<(ContractKind, String)>, names: &Vec<String>, k: ContractKind)
    ensures
        keyed(final(v)@) == keyed(old(v)@) + tagged(string_views(names@), k),
{
    let ghost base = keyed(v@);
    let mut i: usize = 0;
    proof {
        assert(base + tagged(string_views(names@).take(0), k) =~= base);
    }
    while i < names.len()
        invariant
            i <= names@.len(),
            keyed(v@) == base + tagged(string_views(names@).take(i as int), k),
        decreases names@.len() - i,
    {
        let ghost before = keyed(v@);
        v.push((k, names[i].clone()));
        proof {
            assert(keyed(v@) =~= before.push((k, names@[i as int]@)));
            assert(string_views(names@).take(i + 1) =~= string_views(names@).take(i as int).push(names@[i as int]@));
            assert(tagged(string_views(names@).take(i + 1), k) =~= tagged(string_views(names@).take(i as int), k).push((k, names@[i as int]@)));
        }
        i = i + 1;
    }
    proof {
        assert(string_views(names@).take(names@.len() as int) =~= string_views(names@));
    }
}

/// Every contract this project's `report` touches (its API, events and database lists),
/// matched by exact kind and id against the indexed graphs of the other workspace
/// projects (`other_graphs`, each under its project id, no id twice), in report order.
pub fn cross_project_matches(
    workspace: &Workspace,
    source_project_id: &str,
    report: &ImpactReport,
    other_graphs: &Vec<(String, SymbolGraph)>,
) -> (r: Vec<CrossProjectMatch>)
    requires
        forall|a: int, b: int| 0 <= a < b < other_graphs@.len() ==> other_graphs@[a].0@ != other_graphs@[b].0@,
    ensures
        in_match_order(match_views(r@)),
        match_views(r@).to_multiset() == all_matches(
            link_views(workspace.links@),
            source_project_id@,
            graph_views(other_graphs@),
            touched_contracts(string_views(report.api@), string_views(report.events@), string_views(report.database@)),
        ).to_multiset(),
{
    let ghost links = link_views(workspace.links@);
    let ghost others = graph_views(other_graphs@);
    let mut contracts: Vec<(ContractKind, String)> = Vec::new();
    append_tagged(&mut contracts, &report.api, ContractKind::ApiRoute);
    append_tagged(&mut contracts, &report.events, ContractKind::Event);
    append_tagged(&mut contracts, &report.database, ContractKind::Table);
    let ghost cs = keyed(contracts@);
    proof {
        assert(cs =~= touched_contracts(string_views(report.api@), string_views(report.events@), string_views(report.database@)));
    }
    let mut out: Vec<CrossProjectMatch> = Vec::new();
    let mut g: usize = 0;
    proof {
        assert(others.take(0) =~= Seq::<(Seq<char>, Seq<Node>)>::empty());
        assert(match_views(out@) =~= Seq::<MatchView>::empty());
    }
    while g < other_graphs.len()
        invariant
            g <= other_graphs@.len(),
            others == graph_views(other_graphs@),
            links == link_views(workspace.links@),
            cs == keyed(contracts@),
            in_match_order(match_views(out@)),
            match_views(out@).to_multiset() == all_matches(links, source_project_id@, others.take(g as int), cs).to_multiset(),
        decreases other_graphs@.len() - g,
    {
        let other_id = &other_graphs[g].0;
        let graph = &other_graphs[g].1;
        let ghost base = all_matches(links, source_project_id@, others.take(g as int), cs);
        let mut c: usize = 0;
        proof {
            assert(cs.take(0) =~= Seq::<(ContractKind, Seq<char>)>::empty());
            assert(base + matches_in(links, source_project_id@, other_id@, graph.nodes_seq(), cs.take(0)) =~= base);
        }
        while c < contracts.len()
            invariant
                c <= contracts@.len(),
                cs == keyed(contracts@),
                links == link_views(workspace.links@),
                in_match_order(match_views(out@)),
                match_views(out@).to_multiset() == (base + matches_in(
                    links,
                    source_project_id@,
                    other_id@,
                    graph.nodes_seq(),
                    cs.take(c as int),
                )).to_multiset(),
            decreases contracts@.len() - c,
        {
            let kind = contracts[c].0;
            let id = contracts[c].1.as_str();
            let ghost prev = base + matches_in(links, source_project_id@, other_id@, graph.nodes_seq(), cs.take(c as int));
            proof {
                assert(cs.take(c + 1).drop_last() =~= cs.take(c as int));
                assert(cs.take(c + 1).last() == (kind, id@));
            }
            if has_contract_exec(graph, kind, id) {
                let confidence = link_confidence(workspace, source_project_id, other_id.as_str(), id);
                let m = CrossProjectMatch { project_id: other_id.clone(), contract_kind: kind, contract_id: id.to_string(), confidence };
                let ghost mv = m@;
                insert_match(&mut out, m);
                proof {
                    assert(base + matches_in(links, source_project_id@, other_id@, graph.nodes_seq(), cs.take(c + 1)) =~= prev.push(mv));
                }
            } else {
                proof {
                    assert(base + matches_in(links, source_project_id@, other_id@, graph.nodes_seq(), cs.take(c + 1)) =~= prev);
                }
            }
            c = c + 1;
        }
        proof {
            assert(cs.take(contracts@.len() as int) =~= cs);
            assert(others.take(g + 1).drop_last() =~= others.take(g as int));
            assert(others.take(g + 1).last() == (other_id@, graph.nodes_seq()));
        }
        g = g + 1;
    }
    proof {
        assert(others.take(other_graphs@.len() as int) =~= others);
    }
    out
}

// ---------------------------------------------------------------------------------------
// The order of the other projects does not matter
// ---------------------------------------------------------------------------------------
/// A match carries the tier of its own two projects and contract.
pub open spec fn tiered(links: Seq<(Seq<char>, Seq<char>)>, source: Seq<char>, m: MatchView) -> bool {
    m.confidence == link_tier(links, source, m.project_id, m.contract_id)
}

proof fn lemma_matches_in_tiered(
    links: Seq<(Seq<char>, Seq<char>)>,
    source: Seq<char>,
    other: Seq<char>,
    nodes: Seq<Node>,
    contracts: Seq<(ContractKind, Seq<char>)>,
)
    ensures
        forall|i: int| 0 <= i < matches_in(links, source, other, nodes, contracts).len()
            ==> tiered(links, source, #[trigger] matches_in(links, source, other, nodes, contracts)[i]),
    decreases contracts.len(),
{
    if contracts.len() > 0 {
        let r = matches_in(links, source, other, nodes, contracts.drop_last());
        lemma_matches_in_tiered(links, source, other, nodes, contracts.drop_last());
        assert forall|i: int| 0 <= i < matches_in(links, source, other, nodes, contracts).len() implies tiered(
            links,
            source,
            #[trigger] matches_in(links, source, other, nodes, contracts)[i],
        ) by {
            if i < r.len() {
                assert(matches_in(links, source, other, nodes, contracts)[i] == r[i]);
            }
        }
    }
}

proof fn lemma_all_matches_tiered(
    links: Seq<(Seq<char>, Seq<char>)>,
    source: Seq<char>,
    others: Seq<(Seq<char>, Seq<Node>)>,
    contracts: Seq<(ContractKind, Seq<char>)>,
)
    ensures
        forall|i: int| 0 <= i < all_matches(links, source, others, contracts).len()
            ==> tiered(links, source, #[trigger] all_matches(links, source, others, contracts)[i]),
    decreases others.len(),
{
    if others.len() > 0 {
        let a = all_matches(links, source, others.drop_last(), contracts);
        let b = matches_in(links, source, others.last().0, others.last().1, contracts);
        lemma_all_matches_tiered(links, source, others.drop_last(), contracts);
        lemma_matches_in_tiered(links, source, others.last().0, others.last().1, contracts);
        assert forall|i: int| 0 <= i < (a + b).len() implies tiered(links, source, #[trigger] (a + b)[i]) by {
            if i < a.len() {
                assert((a + b)[i] == a[i]);
            } else {
                assert((a + b)[i] == b[i - a.len()]);
            }
        }
    }
}

/// Taking one project out of the list takes exactly its matches out.
proof fn lemma_all_matches_remove(
    links: Seq<(Seq<char>, Seq<char>)>,
    source: Seq<char>,
    others: Seq<(Seq<char>, Seq<Node>)>,
    contracts: Seq<(ContractKind, Seq<char>)>,
    k: int,
)
    requires
        0 <= k < others.len(),
    ensures
        all_matches(links, source, others, contracts).to_multiset() == all_matches(links, source, others.remove(k), contracts)
            .to_multiset().add(matches_in(links, source, others[k].0, others[k].1, contracts).to_multiset()),
    decreases others.len(),
{
    broadcast use vstd::multiset::group_multiset_axioms;

    let dl = others.drop_last();
    let last = others.last();
    let mk = matches_in(links, source, others[k].0, others[k].1, contracts);
    let ml = matches_in(links, source, last.0, last.1, contracts);
    vstd::seq_lib::lemma_multiset_commutative(all_matches(links, source, dl, contracts), ml);
    if k == others.len() - 1 {
        assert(others.remove(k) =~= dl);
    } else {
        let rk = others.remove(k);
        assert(rk.drop_last() =~= dl.remove(k));
        assert(rk.last() == last);
        assert(dl[k] == others[k]);
        lemma_all_matches_remove(links, source, dl, contracts, k);
        vstd::seq_lib::lemma_multiset_commutative(all_matches(links, source, rk.drop_last(), contracts), ml);
        assert(all_matches(links, source, others, contracts).to_multiset() =~= all_matches(links, source, rk, contracts)
            .to_multiset().add(mk.to_multiset()));
    }
}

/// The same projects in another order give the same matches, counted with multiplicity.
proof fn lemma_all_matches_permuted(
    links: Seq<(Seq<char>, Seq<char>)>,
    source: Seq<char>,
    o1: Seq<(Seq<char>, Seq<Node>)>,
    o2: Seq<(Seq<char>, Seq<Node>)>,
    contracts: Seq<(ContractKind, Seq<char>)>,
)
    requires
        o1.to_multiset() == o2.to_multiset(),
    ensures
        all_matches(links, source, o1, contracts).to_multiset() == all_matches(links, source, o2, contracts).to_multiset(),
    decreases o1.len(),
{
    broadcast use vstd::multiset::group_multiset_axioms, vstd::seq_lib::group_to_multiset_ensures;

    assert(o1.to_multiset().len() == o1.len());
    assert(o2.to_multiset().len() == o2.len());
    if o1.len() == 0 {
        assert(o2.len() == 0);
        assert(o1 =~= o2);
    } else {
        let x = o1.last();
        let d1 = o1.drop_last();
        assert(o1 =~= d1.push(x));
        assert(o2.to_multiset().count(x) > 0);
        assert(o2.contains(x));
        let k = choose|k: int| 0 <= k < o2.len() && o2[k] == x;
        let r2 = o2.remove(k);
        assert(r2.to_multiset() =~= d1.to_multiset());
        lemma_all_matches_permuted(links, source, d1, r2, contracts);
        lemma_all_matches_remove(links, source, o2, contracts, k);
        vstd::seq_lib::lemma_multiset_commutative(
            all_matches(links, source, d1, contracts),
            matches_in(links, source, x.0, x.1, contracts),
        );
    }
}

/// Two lists of tiered matches in report order holding the same matches are equal.
proof fn lemma_ordered_unique(
    links: Seq<(Seq<char>, Seq<char>)>,
    source: Seq<char>,
    a: Seq<MatchView>,
    b: Seq<MatchView>,
)
    requires
        in_match_order(a),
        in_match_order(b),
        a.to_multiset() == b.to_multiset(),
        forall|i: int| 0 <= i < a.len() ==> tiered(links, source, #[trigger] a[i]),
        forall|i: int| 0 <= i < b.len() ==> tiered(links, source, #[trigger] b[i]),
    ensures
        a == b,
    decreases a.len(),
{
    broadcast use vstd::multiset::group_multiset_axioms, vstd::seq_lib::group_to_multiset_ensures;

    assert(a.to_multiset().len() == a.len());
    assert(b.to_multiset().len() == b.len());
    if a.len() == 0 {
        assert(b.len() == 0);
        assert(a =~= b);
    } else {
        assert(b.len() == a.len());
        assert(a.to_multiset().count(a[0]) > 0);
        assert(b.contains(a[0]));
        assert(b.to_multiset().count(b[0]) > 0);
        assert(a.contains(b[0]));
        let j = choose|j: int| 0 <= j < b.len() && b[j] == a[0];
        let i = choose|i: int| 0 <= i < a.len() && a[i] == b[0];
        lemma_match_order(a[0], b[0], b[0]);
        if i > 0 {
            assert(!match_before(a[i], a[0]));
        }
        if j > 0 {
            assert(!match_before(b[j], b[0]));
        }
        assert(tiered(links, source, a[0]) && tiered(links, source, b[0]));
        assert(a[0] == b[0]);
        assert(a.remove(0) =~= a.drop_first());
        assert(b.remove(0) =~= b.drop_first());
        assert(a.drop_first().to_multiset() =~= b.drop_first().to_multiset());
        lemma_ordered_unique(links, source, a.drop_first(), b.drop_first());
        assert(a =~= seq![a[0]] + a.drop_first());
        assert(b =~= seq![b[0]] + b.drop_first());
    }
}

/// Cross-project matching does not depend on the order the other projects' graphs come
/// in: the same graphs, listed in any order, give the same matches in the same order.
pub proof fn law_matches_ignore_graph_order(
    links: Seq<(Seq<char>, Seq<char>)>,
    source: Seq<char>,
    o1: Seq<(Seq<char>, Seq<Node>)>,
    o2: Seq<(Seq<char>, Seq<Node>)>,
    contracts: Seq<(ContractKind, Seq<char>)>,
    r1: Seq<MatchView>,
    r2: Seq<MatchView>,
)
    requires
        o1.to_multiset() == o2.to_multiset(),
        in_match_order(r1),
        r1.to_multiset() == all_matches(links, source, o1, contracts).to_multiset(),
        in_match_order(r2),
        r2.to_multiset() == all_matches(links, source, o2, contracts).to_multiset(),
    ensures
        r1 == r2,
{
    broadcast use vstd::multiset::group_multiset_axioms, vstd::seq_lib::group_to_multiset_ensures;

    lemma_all_matches_permuted(links, source, o1, o2, contracts);
    lemma_all_matches_tiered(links, source, o1, contracts);
    lemma_all_matches_tiered(links, source, o2, contracts);
    let m1 = all_matches(links, source, o1, contracts);
    let m2 = all_matches(links, source, o2, contracts);
    assert forall|i: int| 0 <= i < r1.len() implies tiered(links, source, #[trigger] r1[i]) by {
        assert(r1.to_multiset().count(r1[i]) > 0);
        assert(m1.contains(r1[i]));
    }
    assert forall|i: int| 0 <= i < r2.len() implies tiered(links, source, #[trigger] r2[i]) by {
        assert(r2.to_multiset().count(r2[i]) > 0);
        assert(m2.contains(r2[i]));
    }
    lemma_ordered_unique(links, source, r1, r2);
}

proof fn lemma_concat_contains<T>(a: Seq<T>, b: Seq<T>, x: T)
    ensures
        (a + b).contains(x) <==> a.contains(x) || b.contains(x),
{
    if (a + b).contains(x) {
        let k = choose|k: int| 0 <= k < (a + b).len() && (a + b)[k] == x;
        if k < a.len() {
            assert(a[k] == x);
        } else {
            assert(b[k - a.len()] == x);
        }
    }
    if a.contains(x) {
        let k = choose|k: int| 0 <= k < a.len() && a[k] == x;
        assert((a + b)[k] == x);
    }
    if b.contains(x) {
        let k = choose|k: int| 0 <= k < b.len() && b[k] == x;
        assert((a + b)[a.len() + k] == x);
    }
}

proof fn lemma_tagged_contains(names: Seq<Seq<char>>, k: ContractKind, x: (ContractKind, Seq<char>))
    ensures
        tagged(names, k).contains(x) <==> x.0 == k && names.contains(x.1),
{
    if tagged(names, k).contains(x) {
        let i = choose|i: int| 0 <= i < tagged(names, k).len() && tagged(names, k)[i] == x;
        assert(names[i] == x.1);
    }
    if x.0 == k && names.contains(x.1) {
        let i = choose|i: int| 0 <= i < names.len() && names[i] == x.1;
        assert(tagged(names, k)[i] == x);
    }
}

proof fn lemma_matches_in_contains(
    links: Seq<(Seq<char>, Seq<char>)>,
    source: Seq<char>,
    other: Seq<char>,
    nodes: Seq<Node>,
    contracts: Seq<(ContractKind, Seq<char>)>,
    m: MatchView,
)
    ensures
        matches_in(links, source, other, nodes, contracts).contains(m) <==> m.project_id == other && contracts.contains(
            (m.contract_kind, m.contract_id),
        ) && has_contract(nodes, m.contract_kind, m.contract_id) && m.confidence == link_tier(links, source, other, m.contract_id),
    decreases contracts.len(),
{
    if contracts.len() > 0 {
        let head = contracts.drop_last();
        let c = contracts.last();
        lemma_matches_in_contains(links, source, other, nodes, head, m);
        let r = matches_in(links, source, other, nodes, head);
        let here = MatchView { project_id: other, contract_kind: c.0, contract_id: c.1, confidence: link_tier(links, source, other, c.1) };
        assert(contracts == head.push(c));
        lemma_concat_contains(head, seq![c], (m.contract_kind, m.contract_id));
        assert(head.push(c) == head + seq![c]);
        if has_contract(nodes, c.0, c.1) {
            lemma_concat_contains(r, seq![here], m);
            assert(r.push(here) == r + seq![here]);
        }
        if seq![c].contains((m.contract_kind, m.contract_id)) {
            assert(seq![c][0] == (m.contract_kind, m.contract_id));
        }
        if seq![here].contains(m) {
            assert(seq![here][0] == m);
        }
        assert(seq![c][0] == c);
        assert(seq![here][0] == here);
    }
}

proof fn lemma_all_matches_contains(
    links: Seq<(Seq<char>, Seq<char>)>,
    source: Seq<char>,
    others: Seq<(Seq<char>, Seq<Node>)>,
    contracts: Seq<(ContractKind, Seq<char>)>,
    m: MatchView,
)
    ensures
        all_matches(links, source, others, contracts).contains(m) <==> exists|j: int|
            0 <= j < others.len() && #[trigger] matches_in(links, source, others[j].0, others[j].1, contracts).contains(m),
    decreases others.len(),
{
    if others.len() > 0 {
        let head = others.drop_last();
        let last = others.last();
        lemma_all_matches_contains(links, source, head, contracts, m);
        lemma_concat_contains(
            all_matches(links, source, head, contracts),
            matches_in(links, source, last.0, last.1, contracts),
            m,
        );
        if exists|j: int| 0 <= j < others.len() && #[trigger] matches_in(links, source, others[j].0, others[j].1, contracts).contains(m) {
            let j = choose|j: int| 0 <= j < others.len() && #[trigger] matches_in(links, source, others[j].0, others[j].1, contracts).contains(m);
            if j < others.len() - 1 {
                assert(head[j] == others[j]);
                assert(matches_in(links, source, head[j].0, head[j].1, contracts).contains(m));
            }
        }
        if exists|j: int| 0 <= j < head.len() && #[trigger] matches_in(links, source, head[j].0, head[j].1, contracts).contains(m) {
            let j = choose|j: int| 0 <= j < head.len() && #[trigger] matches_in(links, source, head[j].0, head[j].1, contracts).contains(m);
            assert(head[j] == others[j]);
            assert(matches_in(links, source, others[j].0, others[j].1, contracts).contains(m));
        }
        assert(matches_in(links, source, others[others.len() - 1].0, others[others.len() - 1].1, contracts) == matches_in(
            links,
            source,
            last.0,
            last.1,
            contracts,
        ));
    }
}

/// What a workspace query matches: a report's contract is listed for another project
/// exactly when that project's graph holds a contract node of the same kind and id, the
/// report touches it under that kind (API routes, events, database tables), and the
/// match carries the link tier between the two projects.
pub proof fn law_matches_are_the_touched_contracts_held_elsewhere(
    links: Seq<(Seq<char>, Seq<char>)>,
    source: Seq<char>,
    others: Seq<(Seq<char>, Seq<Node>)>,
    api: Seq<Seq<char>>,
    events: Seq<Seq<char>>,
    tables: Seq<Seq<char>>,
    r: Seq<MatchView>,
    m: MatchView,
)
    requires
        r.to_multiset() == all_matches(links, source, others, touched_contracts(api, events, tables)).to_multiset(),
    ensures
        r.contains(m) <==> {
            &&& exists|j: int, i: int|
                #![trigger others[j].1[i]]
                0 <= j < others.len() && others[j].0 == m.project_id && 0 <= i < others[j].1.len() && others[j].1[i].kind
                    == NodeKind::Contract(m.contract_kind) && others[j].1[i].qualified_path@ == m.contract_id
            &&& m.confidence == link_tier(links, source, m.project_id, m.contract_id)
            &&& (m.contract_kind == ContractKind::ApiRoute && api.contains(m.contract_id)) || (m.contract_kind
                == ContractKind::Event && events.contains(m.contract_id)) || (m.contract_kind == ContractKind::Table
                && tables.contains(m.contract_id))
        },
{
    broadcast use vstd::seq_lib::group_to_multiset_ensures;

    let cs = touched_contracts(api, events, tables);
    let x = (m.contract_kind, m.contract_id);
    let all = all_matches(links, source, others, cs);
    assert(r.contains(m) <==> all.contains(m)) by {
        assert(r.to_multiset().count(m) == all.to_multiset().count(m));
    }
    lemma_all_matches_contains(links, source, others, cs, m);
    lemma_concat_contains(tagged(api, ContractKind::ApiRoute) + tagged(events, ContractKind::Event), tagged(tables, ContractKind::Table), x);
    lemma_concat_contains(tagged(api, ContractKind::ApiRoute), tagged(events, ContractKind::Event), x);
    lemma_tagged_contains(api, ContractKind::ApiRoute, x);
    lemma_tagged_contains(events, ContractKind::Event, x);
    lemma_tagged_contains(tables, ContractKind::Table, x);
    if all.contains(m) {
        let j = choose|j: int| 0 <= j < others.len() && #[trigger] matches_in(links, source, others[j].0, others[j].1, cs).contains(m);
        lemma_matches_in_contains(links, source, others[j].0, others[j].1, cs, m);
        let i = choose|i: int|
            0 <= i < others[j].1.len() && #[trigger] others[j].1[i].kind == NodeKind::Contract(m.contract_kind)
                && others[j].1[i].qualified_path@ == m.contract_id;
        assert(others[j].1[i].kind == NodeKind::Contract(m.contract_kind));
    }
    if exists|j: int, i: int|
        #![trigger others[j].1[i]]
        0 <= j < others.len() && others[j].0 == m.project_id && 0 <= i < others[j].1.len() && others[j].1[i].kind
            == NodeKind::Contract(m.contract_kind) && others[j].1[i].qualified_path@ == m.contract_id {
        let (j, i) = choose|j: int, i: int|
            #![trigger others[j].1[i]]
            0 <= j < others.len() && others[j].0 == m.project_id && 0 <= i < others[j].1.len() && others[j].1[i].kind
                == NodeKind::Contract(m.contract_kind) && others[j].1[i].qualified_path@ == m.contract_id;
        assert(has_contract(others[j].1, m.contract_kind, m.contract_id));
        lemma_matches_in_contains(links, source, others[j].0, others[j].1, cs, m);
    }
}

} // verus!
