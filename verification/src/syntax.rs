//! A parsed source file as plain values: each syntax node with its grammar kind, the
//! field it fills in its parent, whether the grammar names it, its text and lines, and
//! its children. The language adapters read declarations, calls and contracts off it.
use vstd::prelude::*;

use crate::text::chars_eq_str;

verus! {

/// One node of a concrete syntax tree.
#[derive(Debug)]
pub struct Syntax {
    /// The grammar's name for the node (`function_declaration`, `identifier`, ...).
    pub kind: String,
    /// The field of its parent this node fills (`name`, `body`, ...), if any.
    pub field: Option<String>,
    /// Whether the grammar names the node (punctuation and keywords are unnamed).
    pub named: bool,
    /// The node's source text.
    pub text: String,
    /// 1-based lines of the node's first and last character.
    pub line: usize,
    pub end_line: usize,
    pub children: Vec<Syntax>,
}

pub open spec fn opt_text(o: Option<String>) -> Option<Seq<char>> {
    match o {
        Some(s) => Some(s@),
        None => None,
    }
}

/// Position of the first of `cs[i..]` that fills `field`.
pub open spec fn field_index_from(cs: Seq<Syntax>, field: Seq<char>, i: int) -> Option<int>
    decreases cs.len() - i,
{
    if i < 0 || i >= cs.len() {
        None
    } else if opt_text(cs[i].field) == Some(field) {
        Some(i)
    } else {
        field_index_from(cs, field, i + 1)
    }
}

pub proof fn lemma_field_index(cs: Seq<Syntax>, field: Seq<char>, i: int)
    ensures
        field_index_from(cs, field, i) matches Some(j) ==> 0 <= i <= j < cs.len() && opt_text(cs[j].field) == Some(field),
    decreases cs.len() - i,
{
    if 0 <= i < cs.len() && opt_text(cs[i].field) != Some(field) {
        lemma_field_index(cs, field, i + 1);
    }
}

/// `Node::child_by_field_name`: the first child filling `field`.
pub open spec fn child_by_field(n: Syntax, field: Seq<char>) -> Option<Syntax> {
    match field_index_from(n.children@, field, 0) {
        Some(j) => Some(n.children@[j]),
        None => None,
    }
}

/// The text of the child filling `field`.
pub open spec fn field_text(n: Syntax, field: Seq<char>) -> Option<Seq<char>> {
    match child_by_field(n, field) {
        Some(c) => Some(c.text@),
        None => None,
    }
}

pub fn child_by_field_name<'a>(n: &'a Syntax, field: &str) -> (r: Option<&'a Syntax>)
    ensures
        match child_by_field(*n, field@) {
            Some(c) => r == Some(&c),
            None => r is None,
        },
{
    let ghost cs = n.children@;
    let mut i: usize = 0;
    while i < n.children.len()
        invariant
            i <= cs.len(),
            cs == n.children@,
            field_index_from(cs, field@, 0) == field_index_from(cs, field@, i as int),
        decreases cs.len() - i,
    {
        let c = &n.children[i];
        let fills = match &c.field {
            Some(f) => chars_eq_str_text(f, field),
            None => false,
        };
        if fills {
            return Some(c);
        }
        i = i + 1;
    }
    None
}

fn chars_eq_str_text(a: &String, b: &str) -> (r: bool)
    ensures
        r == (a@ == b@),
{
    crate::text::str_eq(a.as_str(), b)
}

/// Grammar kinds naming an identifier.
pub open spec fn is_ident_kind(k: Seq<char>) -> bool {
    k == "identifier"@ || k == "field_identifier"@ || k == "type_identifier"@
}

/// The rightmost identifier-like leaf: the node's own text for an identifier, else the
/// last child's that has one.
pub open spec fn last_ident(n: Syntax) -> Option<Seq<char>>
    decreases n, 1int,
{
    if is_ident_kind(n.kind@) {
        Some(n.text@)
    } else {
        last_ident_in(n.children@, n.children@.len() as int)
    }
}

/// The last of the first `k` nodes of `cs` that has an identifier-like leaf.
pub open spec fn last_ident_in(cs: Seq<Syntax>, k: int) -> Option<Seq<char>>
    decreases cs, k,
{
    if k <= 0 || k > cs.len() {
        None
    } else {
        match last_ident(cs[k - 1]) {
            Some(t) => Some(t),
            None => last_ident_in(cs, k - 1),
        }
    }
}

pub open spec fn ref_text(o: Option<&String>) -> Option<Seq<char>> {
    match o {
        Some(s) => Some(s@),
        None => None,
    }
}

fn is_ident_kind_exec(k: &String) -> (b: bool)
    ensures
        b == is_ident_kind(k@),
{
    let s = k.as_str();
    crate::text::str_eq(s, "identifier") || crate::text::str_eq(s, "field_identifier") || crate::text::str_eq(
        s,
        "type_identifier",
    )
}

/// The rightmost identifier-like leaf of `n` (see `last_ident`).
pub fn last_identifier_text(n: &Syntax) -> (r: Option<&String>)
    ensures
        ref_text(r) == last_ident(*n),
    decreases n,
{
    if is_ident_kind_exec(&n.kind) {
        return Some(&n.text);
    }
    let ghost cs = n.children@;
    let mut result: Option<&String> = None;
    let mut i: usize = 0;
    while i < n.children.len()
        invariant
            i <= cs.len(),
            cs == n.children@,
            ref_text(result) == last_ident_in(cs, i as int),
        decreases cs.len() - i,
    {
        proof {
            assert(decreases_to!(*n => n.children));
        }
        let found = last_identifier_text(&n.children[i]);
        if found.is_some() {
            result = found;
        }
        i = i + 1;
    }
    result
}

/// A source file an adapter reads: its path relative to the project root, its text, and
/// its parse tree.
#[derive(Debug)]
pub struct SourceFile {
    pub path: String,
    pub source: String,
    pub root: Syntax,
}

/// Position in `cs` of the named node that is the `i`-th named one from `from` on.
pub open spec fn named_index_from(cs: Seq<Syntax>, i: int, from: int) -> Option<int>
    decreases cs.len() - from,
{
    if from < 0 || from >= cs.len() {
        None
    } else if cs[from].named {
        if i == 0 {
            Some(from)
        } else {
            named_index_from(cs, i - 1, from + 1)
        }
    } else {
        named_index_from(cs, i, from + 1)
    }
}

/// `Node::named_child(i)`.
pub open spec fn named_child(n: Syntax, i: int) -> Option<Syntax> {
    match named_index_from(n.children@, i, 0) {
        Some(j) => Some(n.children@[j]),
        None => None,
    }
}

pub proof fn lemma_named_index(cs: Seq<Syntax>, i: int, from: int)
    ensures
        named_index_from(cs, i, from) matches Some(j) ==> 0 <= from <= j < cs.len(),
    decreases cs.len() - from,
{
    if 0 <= from < cs.len() {
        if cs[from].named {
            if i != 0 {
                lemma_named_index(cs, i - 1, from + 1);
            }
        } else {
            lemma_named_index(cs, i, from + 1);
        }
    }
}

pub fn named_child_at<'a>(n: &'a Syntax, i: usize) -> (r: Option<&'a Syntax>)
    ensures
        match named_child(*n, i as int) {
            Some(c) => r == Some(&c),
            None => r is None,
        },
{
    let ghost cs = n.children@;
    let mut want: usize = i;
    let mut k: usize = 0;
    while k < n.children.len()
        invariant
            k <= cs.len(),
            cs == n.children@,
            want <= i,
            named_index_from(cs, i as int, 0) == named_index_from(cs, want as int, k as int),
        decreases cs.len() - k,
    {
        if n.children[k].named {
            if want == 0 {
                return Some(&n.children[k]);
            }
            want = want - 1;
        }
        k = k + 1;
    }
    None
}

/// Whether the subtree at `n` holds a node of kind `kind` (`n` itself included).
pub open spec fn contains_kind(n: Syntax, kind: Seq<char>) -> bool
    decreases n, 1int,
{
    n.kind@ == kind || contains_kind_in(n.children@, n.children@.len() as int, kind)
}

pub open spec fn contains_kind_in(cs: Seq<Syntax>, k: int, kind: Seq<char>) -> bool
    decreases cs, k,
{
    if k <= 0 || k > cs.len() {
        false
    } else {
        contains_kind_in(cs, k - 1, kind) || contains_kind(cs[k - 1], kind)
    }
}

pub fn has_kind(n: &Syntax, kind: &str) -> (b: bool)
    ensures
        b == contains_kind(*n, kind@),
    decreases n,
{
    if chars_eq_str_text(&n.kind, kind) {
        return true;
    }
    let ghost cs = n.children@;
    let mut found = false;
    let mut i: usize = 0;
    while i < n.children.len()
        invariant
            i <= cs.len(),
            cs == n.children@,
            found == contains_kind_in(cs, i as int, kind@),
        decreases cs.len() - i,
    {
        if has_kind(&n.children[i], kind) {
            found = true;
        }
        i = i + 1;
    }
    found
}

/// Position of the first of `cs[from..]` of kind `kind`.
pub open spec fn kind_index_from(cs: Seq<Syntax>, kind: Seq<char>, from: int) -> Option<int>
    decreases cs.len() - from,
{
    if from < 0 || from >= cs.len() {
        None
    } else if cs[from].kind@ == kind {
        Some(from)
    } else {
        kind_index_from(cs, kind, from + 1)
    }
}

/// The first child of kind `kind`.
pub open spec fn first_of_kind(n: Syntax, kind: Seq<char>) -> Option<Syntax> {
    match kind_index_from(n.children@, kind, 0) {
        Some(j) => Some(n.children@[j]),
        None => None,
    }
}

pub fn first_child_of_kind<'a>(n: &'a Syntax, kind: &str) -> (r: Option<&'a Syntax>)
    ensures
        match first_of_kind(*n, kind@) {
            Some(c) => r == Some(&c),
            None => r is None,
        },
{
    let ghost cs = n.children@;
    let mut i: usize = 0;
    while i < n.children.len()
        invariant
            i <= cs.len(),
            cs == n.children@,
            kind_index_from(cs, kind@, 0) == kind_index_from(cs, kind@, i as int),
        decreases cs.len() - i,
    {
        if chars_eq_str_text(&n.children[i].kind, kind) {
            return Some(&n.children[i]);
        }
        i = i + 1;
    }
    None
}

/// Whether `n` is of kind `kind`.
pub fn is_kind(n: &Syntax, kind: &str) -> (b: bool)
    ensures
        b == (n.kind@ == kind@),
{
    chars_eq_str_text(&n.kind, kind)
}

/// The text of the child filling `field`.
pub fn field_text_of<'a>(n: &'a Syntax, field: &str) -> (r: Option<&'a String>)
    ensures
        ref_text(r) == field_text(*n, field@),
{
    match child_by_field_name(n, field) {
        Some(c) => Some(&c.text),
        None => None,
    }
}

} // verus!
