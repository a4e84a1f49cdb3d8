//! Parsing source text with tree-sitter's Go and C++ grammars into `Syntax` trees. The
//! grammars hand back a pre-order listing of the parse tree's nodes, each with its number
//! of children; the tree is rebuilt from that listing here.
use vstd::prelude::*;

use crate::go::{slashes, to_slashes};
use crate::syntax::{opt_text, SourceFile, Syntax};
use crate::text::{chars_of, string_of};

verus! {

/// One node of a parse tree as the grammar lists it, in pre-order: its kind, the field it
/// fills in its parent, whether the grammar names it, its text, its 0-based first and
/// last rows, and how many children follow it in the listing — in that order.
#[derive(Debug)]
pub struct ParsedNode(pub String, pub Option<String>, pub bool, pub String, pub usize, pub usize, pub u32);

/// A listed node as plain values.
pub struct ParsedView {
    pub kind: Seq<char>,
    pub field: Option<Seq<char>>,
    pub named: bool,
    pub text: Seq<char>,
    pub start_row: int,
    pub end_row: int,
    pub children: int,
}

impl View for ParsedNode {
    type V = ParsedView;

    open spec fn view(&self) -> ParsedView {
        ParsedView {
            kind: self.0@,
            field: opt_text(self.1),
            named: self.2,
            text: self.3@,
            start_row: self.4 as int,
            end_row: self.5 as int,
            children: self.6 as int,
        }
    }
}

pub open spec fn parsed_views(v: Seq<ParsedNode>) -> Seq<ParsedView> {
    v.map_values(|n: ParsedNode| n@)
}

pub open spec fn opt_listing(r: Option<Vec<ParsedNode>>) -> Option<Seq<ParsedView>> {
    match r {
        Some(v) => Some(parsed_views(v@)),
        None => None,
    }
}

// ---------------------------------------------------------------------------------------
// The grammars
// ---------------------------------------------------------------------------------------
/// What tree-sitter's Go grammar parses `source` into, as a pre-order node listing.
pub uninterp spec fn tree_sitter_go_listing(source: Seq<char>) -> Option<Seq<ParsedView>>;

/// What tree-sitter's C++ grammar parses `source` into, as a pre-order node listing.
pub uninterp spec fn tree_sitter_cpp_listing(source: Seq<char>) -> Option<Seq<ParsedView>>;

/// `tree_sitter::Parser::parse` of `source` with `tree_sitter_go::LANGUAGE`, walked with a
/// tree cursor into a pre-order listing of the tree's nodes. The listing is named by
/// `tree_sitter_go_listing`; `None` when the grammar cannot be loaded or the parse fails.
#[verifier::external_body]
fn go_listing(source: &str) -> (r: Option<Vec<ParsedNode>>)
    ensures
        opt_listing(r) == tree_sitter_go_listing(source@),
{
    let mut parser = tree_sitter::Parser::new();
    parser.set_language(&tree_sitter_go::LANGUAGE.into()).ok()?;
    let tree = parser.parse(source, None)?;
    let mut c = tree.walk();
    let mut out = Vec::new();
    loop {
        let n = c.node();
        out.push(ParsedNode(n.kind().into(), c.field_name().map(Into::into), n.is_named(),
            n.utf8_text(source.as_bytes()).ok()?.into(), n.start_position().row, n.end_position().row,
            n.child_count()));
        if !c.goto_first_child() {
            while !c.goto_next_sibling() { if !c.goto_parent() { return Some(out); } }
        }
    }
}

/// `tree_sitter::Parser::parse` of `source` with `tree_sitter_cpp::LANGUAGE`, walked with a
/// tree cursor into a pre-order listing of the tree's nodes. The listing is named by
/// `tree_sitter_cpp_listing`; `None` when the grammar cannot be loaded or the parse fails.
#[verifier::external_body]
fn cpp_listing(source: &str) -> (r: Option<Vec<ParsedNode>>)
    ensures
        opt_listing(r) == tree_sitter_cpp_listing(source@),
{
    let mut parser = tree_sitter::Parser::new();
    parser.set_language(&tree_sitter_cpp::LANGUAGE.into()).ok()?;
    let tree = parser.parse(source, None)?;
    let mut c = tree.walk();
    let mut out = Vec::new();
    loop {
        let n = c.node();
        out.push(ParsedNode(n.kind().into(), c.field_name().map(Into::into), n.is_named(),
            n.utf8_text(source.as_bytes()).ok()?.into(), n.start_position().row, n.end_position().row,
            n.child_count()));
        if !c.goto_first_child() {
            while !c.goto_next_sibling() { if !c.goto_parent() { return Some(out); } }
        }
    }
}

// ---------------------------------------------------------------------------------------
// Listings and trees
// ---------------------------------------------------------------------------------------
/// How a tree's own node is listed (rows 0-based).
pub open spec fn head_of(t: Syntax) -> ParsedView {
    ParsedView {
        kind: t.kind@,
        field: opt_text(t.field),
        named: t.named,
        text: t.text@,
        start_row: t.line - 1,
        end_row: t.end_line - 1,
        children: t.children@.len() as int,
    }
}

/// The pre-order listing of a tree: its node, then each child's listing in turn.
pub open spec fn preorder(t: Syntax) -> Seq<ParsedView>
    decreases t, 1int,
{
    seq![head_of(t)] + preorder_all(t.children@, t.children@.len() as int)
}

/// The listings of the first `k` trees of `cs`, one after another.
pub open spec fn preorder_all(cs: Seq<Syntax>, k: int) -> Seq<ParsedView>
    decreases cs, k,
{
    if k <= 0 || k > cs.len() {
        Seq::empty()
    } else {
        preorder_all(cs, k - 1) + preorder(cs[k - 1])
    }
}

/// Where the subtree listed at `pos` ends (the position after its last descendant), if
/// the listing holds all of it and its rows leave room to count lines from 1.
pub open spec fn span_at(l: Seq<ParsedView>, pos: int) -> Option<int>
    decreases l.len() - pos, 0int, 0int,
{
    if pos < 0 || pos >= l.len() || l[pos].start_row >= usize::MAX || l[pos].end_row >= usize::MAX {
        None
    } else {
        spans_from(l, pos + 1, l[pos].children)
    }
}

/// Where `count` subtrees listed one after another from `pos` end.
pub open spec fn spans_from(l: Seq<ParsedView>, pos: int, count: int) -> Option<int>
    decreases l.len() - pos, 1int, count,
{
    if count <= 0 {
        Some(pos)
    } else if pos < 0 || pos >= l.len() {
        None
    } else {
        match span_at(l, pos) {
            Some(e) => if pos < e <= l.len() {
                spans_from(l, e, count - 1)
            } else {
                None
            },
            None => None,
        }
    }
}

proof fn lemma_span_bounds(l: Seq<ParsedView>, pos: int)
    ensures
        span_at(l, pos) matches Some(e) ==> pos < e <= l.len(),
    decreases l.len() - pos, 0int, 0int,
{
    if 0 <= pos < l.len() && l[pos].start_row < usize::MAX && l[pos].end_row < usize::MAX {
        lemma_spans_bounds(l, pos + 1, l[pos].children);
    }
}

proof fn lemma_spans_bounds(l: Seq<ParsedView>, pos: int, count: int)
    requires
        0 <= pos <= l.len(),
    ensures
        spans_from(l, pos, count) matches Some(e) ==> pos <= e <= l.len(),
    decreases l.len() - pos, 1int, count,
{
    if count > 0 && pos < l.len() {
        if let Some(e) = span_at(l, pos) {
            if pos < e <= l.len() {
                lemma_spans_bounds(l, e, count - 1);
            }
        }
    }
}

/// The listing of the first `k` trees depends on those trees only.
proof fn lemma_preorder_prefix(cs: Seq<Syntax>, ds: Seq<Syntax>, k: int)
    requires
        0 <= k <= cs.len(),
        k <= ds.len(),
        forall|i: int| 0 <= i < k ==> cs[i] == ds[i],
    ensures
        preorder_all(cs, k) == preorder_all(ds, k),
    decreases k,
{
    if k > 0 {
        lemma_preorder_prefix(cs, ds, k - 1);
    }
}

fn clone_field(f: &Option<String>) -> (r: Option<String>)
    ensures
        opt_text(r) == opt_text(*f),
{
    match f {
        Some(s) => Some(s.clone()),
        None => None,
    }
}

/// Rebuilds the subtree listed at `pos`, with the position after its last descendant.
fn build_at(list: &Vec<ParsedNode>, pos: usize) -> (r: Option<(Syntax, usize)>)
    ensures
        match span_at(parsed_views(list@), pos as int) {
            Some(e) => r matches Some((t, next)) && next as int == e && preorder(t) == parsed_views(list@).subrange(
                pos as int,
                e,
            ),
            None => r is None,
        },
    decreases list@.len() - pos,
{
    let ghost l = parsed_views(list@);
    if pos >= list.len() {
        return None;
    }
    let head = &list[pos];
    proof {
        assert(l[pos as int] == head@);
    }
    if head.4 == usize::MAX || head.5 == usize::MAX {
        return None;
    }
    let count = head.6;
    let mut children: Vec<Syntax> = Vec::new();
    let mut cur = pos + 1;
    let mut k: u32 = 0;
    proof {
        assert(l.subrange(pos + 1, pos + 1) =~= Seq::<ParsedView>::empty());
    }
    while k < count
        invariant
            l == parsed_views(list@),
            pos < cur <= list@.len(),
            k <= count,
            children@.len() == k,
            span_at(l, pos as int) == spans_from(l, cur as int, (count - k) as int),
            preorder_all(children@, k as int) == l.subrange(pos + 1, cur as int),
        decreases count - k,
    {
        proof {
            lemma_span_bounds(l, cur as int);
        }
        match build_at(list, cur) {
            Some((t, next)) => {
                let ghost before = children@;
                children.push(t);
                proof {
                    lemma_preorder_prefix(before, children@, k as int);
                    assert(preorder_all(children@, k + 1) == preorder_all(children@, k as int) + preorder(t));
                    assert(l.subrange(pos + 1, next as int) =~= l.subrange(pos + 1, cur as int) + l.subrange(
                        cur as int,
                        next as int,
                    ));
                }
                cur = next;
            },
            None => {
                return None;
            },
        }
        k = k + 1;
    }
    let t = Syntax {
        kind: head.0.clone(),
        field: clone_field(&head.1),
        named: head.2,
        text: head.3.clone(),
        line: head.4 + 1,
        end_line: head.5 + 1,
        children,
    };
    proof {
        assert(head_of(t) == l[pos as int]);
        assert(l.subrange(pos as int, cur as int) =~= seq![l[pos as int]] + l.subrange(pos + 1, cur as int));
    }
    Some((t, cur))
}

/// The tree a listing describes, when it describes exactly one.
pub fn build_tree(list: &Vec<ParsedNode>) -> (r: Option<Syntax>)
    ensures
        r is Some <==> span_at(parsed_views(list@), 0) == Some(list@.len() as int),
        r matches Some(t) ==> preorder(t) == parsed_views(list@),
{
    match build_at(list, 0) {
        Some((t, next)) => {
            if next == list.len() {
                proof {
                    assert(parsed_views(list@).subrange(0, list@.len() as int) =~= parsed_views(list@));
                }
                Some(t)
            } else {
                None
            }
        },
        None => None,
    }
}

// ---------------------------------------------------------------------------------------
// Parsing a file
// ---------------------------------------------------------------------------------------
/// A file could not be parsed into one syntax tree.
#[derive(Debug, Clone, PartialEq, Eq)]
pub struct ParseFailure {
    /// The file's path, with `/` separators.
    pub path: String,
}

/// What parsing `source` with a grammar's `listing` gives for the file at `path`.
pub open spec fn parsed_file(listing: Option<Seq<ParsedView>>, path: Seq<char>, source: Seq<char>, r: Result<SourceFile, ParseFailure>) -> bool {
    match listing {
        Some(l) => if span_at(l, 0) == Some(l.len() as int) {
            r matches Ok(f) && preorder(f.root) == l && f.source@ == source && f.path@ == to_slashes(path)
        } else {
            r matches Err(e) && e.path@ == to_slashes(path)
        },
        None => r matches Err(e) && e.path@ == to_slashes(path),
    }
}

fn file_from(listing: Option<Vec<ParsedNode>>, path: &str, source: &str) -> (r: Result<SourceFile, ParseFailure>)
    ensures
        parsed_file(opt_listing(listing), path@, source@, r),
{
    let p = slashes(chars_of(path).as_slice());
    let path_text = string_of(p.as_slice());
    match listing {
        Some(list) => match build_tree(&list) {
            Some(root) => Ok(SourceFile { path: path_text, source: source.to_string(), root }),
            None => Err(ParseFailure { path: path_text }),
        },
        None => Err(ParseFailure { path: path_text }),
    }
}

/// Parses a Go file (`path` relative to the project root, `\` read as `/`).
pub fn parse_go(path: &str, source: &str) -> (r: Result<SourceFile, ParseFailure>)
    ensures
        parsed_file(tree_sitter_go_listing(source@), path@, source@, r),
{
    file_from(go_listing(source), path, source)
}

/// Parses a C++ file (`path` relative to the project root, `\` read as `/`).
pub fn parse_cpp(path: &str, source: &str) -> (r: Result<SourceFile, ParseFailure>)
    ensures
        parsed_file(tree_sitter_cpp_listing(source@), path@, source@, r),
{
    file_from(cpp_listing(source), path, source)
}

} // verus!
