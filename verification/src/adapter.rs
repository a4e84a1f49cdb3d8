//! What a language adapter reports about one file, before the linker turns it into graph
//! nodes and edges.
use vstd::prelude::*;

use crate::graph::{ContractKind, EdgeKind, NodeKind};

verus! {

/// A symbol found in one file, before it's turned into a graph `Node`.
#[derive(Debug, Clone)]
pub struct SymbolDecl {
    pub kind: NodeKind,
    pub qualified_path: String,
    pub line: usize,
    /// The last line of this symbol's own span (1-indexed, inclusive).
    pub end_line: usize,
    pub is_test: bool,
    /// Declared in a file the adapter recognized as tool-generated.
    pub is_generated: bool,
    /// The module's default export.
    pub is_default_export: bool,
}

/// How far an adapter could narrow down what a reference's name refers to, using only
/// what's visible in the one file it parsed.
#[derive(Debug, Clone)]
pub enum RefTarget {
    /// An import, a same-file declaration or the same package binds the name to this
    /// `::`-joined module.
    Module(String),
    /// A default import: the name is the importer's own alias for the module's default
    /// export.
    ModuleDefault(String),
    /// The adapter looked for scope evidence and found none.
    Opaque,
    /// The language has no file-level import that could narrow the name.
    Unscoped,
}

/// `RefTarget` with its module as characters.
pub enum RefTargetView {
    Module(Seq<char>),
    ModuleDefault(Seq<char>),
    Opaque,
    Unscoped,
}

impl View for RefTarget {
    type V = RefTargetView;

    open spec fn view(&self) -> RefTargetView {
        match self {
            RefTarget::Module(m) => RefTargetView::Module(m@),
            RefTarget::ModuleDefault(m) => RefTargetView::ModuleDefault(m@),
            RefTarget::Opaque => RefTargetView::Opaque,
            RefTarget::Unscoped => RefTargetView::Unscoped,
        }
    }
}

impl RefTarget {
    /// A copy with the same view.
    pub fn copy(&self) -> (r: RefTarget)
        ensures
            r@ == self@,
    {
        match self {
            RefTarget::Module(m) => RefTarget::Module(m.clone()),
            RefTarget::ModuleDefault(m) => RefTarget::ModuleDefault(m.clone()),
            RefTarget::Opaque => RefTarget::Opaque,
            RefTarget::Unscoped => RefTarget::Unscoped,
        }
    }
}

/// A reference found in one file, before the linker resolves it into a graph `Edge`.
#[derive(Debug, Clone)]
pub struct RefDecl {
    pub from_qualified_path: String,
    pub to_name: String,
    pub kind: EdgeKind,
    pub to_target: RefTarget,
}

pub struct SymbolDeclView {
    pub kind: NodeKind,
    pub qualified_path: Seq<char>,
    pub line: int,
    pub end_line: int,
    pub is_test: bool,
    pub is_generated: bool,
    pub is_default_export: bool,
}

impl View for SymbolDecl {
    type V = SymbolDeclView;

    open spec fn view(&self) -> SymbolDeclView {
        SymbolDeclView {
            kind: self.kind,
            qualified_path: self.qualified_path@,
            line: self.line as int,
            end_line: self.end_line as int,
            is_test: self.is_test,
            is_generated: self.is_generated,
            is_default_export: self.is_default_export,
        }
    }
}

pub struct RefDeclView {
    pub from_qualified_path: Seq<char>,
    pub to_name: Seq<char>,
    pub kind: EdgeKind,
    pub to_target: RefTargetView,
}

impl View for RefDecl {
    type V = RefDeclView;

    open spec fn view(&self) -> RefDeclView {
        RefDeclView {
            from_qualified_path: self.from_qualified_path@,
            to_name: self.to_name@,
            kind: self.kind,
            to_target: self.to_target@,
        }
    }
}

/// Which side of a contract relationship a symbol is on.
#[derive(Debug, Clone, Copy, PartialEq, Eq, Structural)]
pub enum ContractRole {
    Produces,
    Consumes,
    Reads,
    Writes,
}

/// A symbol's relationship to a contract (an API route, an event type, a database table).
#[derive(Debug, Clone)]
pub struct ContractRef {
    pub contract_kind: ContractKind,
    pub contract_id: String,
    pub symbol_name: String,
    pub role: ContractRole,
}

pub struct ContractRefView {
    pub contract_kind: ContractKind,
    pub contract_id: Seq<char>,
    pub symbol_name: Seq<char>,
    pub role: ContractRole,
}

impl View for ContractRef {
    type V = ContractRefView;

    open spec fn view(&self) -> ContractRefView {
        ContractRefView {
            contract_kind: self.contract_kind,
            contract_id: self.contract_id@,
            symbol_name: self.symbol_name@,
            role: self.role,
        }
    }
}

/// One dependency a package's manifest declares.
#[derive(Debug, Clone)]
pub struct PackageDependency {
    /// The depended-on package's own name.
    pub package: String,
    /// The name code uses to import it.
    pub import_name: String,
    /// Declared for tests only.
    pub dev_only: bool,
}

/// One package (a crate, a Go module, ...) found in the project: where its files live and
/// what it may depend on.
#[derive(Debug, Clone)]
pub struct PackageDecl {
    pub name: String,
    pub import_name: String,
    /// Directory holding the package (`""` for the project root).
    pub root: String,
    /// Directory holding its shipped source.
    pub source_root: String,
    /// Module path its symbols are indexed under.
    pub module_root: String,
    pub dependencies: Vec<PackageDependency>,
}

/// The text a contract role is stored under.
pub open spec fn role_text(role: ContractRole) -> Seq<char> {
    match role {
        ContractRole::Produces => "produces"@,
        ContractRole::Consumes => "consumes"@,
        ContractRole::Reads => "reads"@,
        ContractRole::Writes => "writes"@,
    }
}

pub fn role_to_str(role: ContractRole) -> (s: &'static str)
    ensures
        s@ == role_text(role),
{
    match role {
        ContractRole::Produces => "produces",
        ContractRole::Consumes => "consumes",
        ContractRole::Reads => "reads",
        ContractRole::Writes => "writes",
    }
}

pub fn role_from_str(s: &str) -> (r: Option<ContractRole>)
    ensures
        match r {
            Some(role) => role_text(role) == s@,
            None => forall|role: ContractRole| role_text(role) != s@,
        },
{
    proof {
        reveal_strlit("produces");
        reveal_strlit("consumes");
        reveal_strlit("reads");
        reveal_strlit("writes");
    }
    if crate::text::str_eq(s, "produces") {
        Some(ContractRole::Produces)
    } else if crate::text::str_eq(s, "consumes") {
        Some(ContractRole::Consumes)
    } else if crate::text::str_eq(s, "reads") {
        Some(ContractRole::Reads)
    } else if crate::text::str_eq(s, "writes") {
        Some(ContractRole::Writes)
    } else {
        proof {
            assert forall|role: ContractRole| role_text(role) != s@ by {
                match role {
                    ContractRole::Produces => {},
                    ContractRole::Consumes => {},
                    ContractRole::Reads => {},
                    ContractRole::Writes => {},
                }
            }
        }
        None
    }
}

/// Roles are stored under distinct texts, so reading one back gives the role written.
pub proof fn law_role_text_round_trips(a: ContractRole, b: ContractRole)
    ensures
        role_text(a) == role_text(b) <==> a == b,
{
    reveal_strlit("produces");
    reveal_strlit("consumes");
    reveal_strlit("reads");
    reveal_strlit("writes");
    if a != b {
        assert(role_text(a).len() != role_text(b).len() || role_text(a)[0] != role_text(b)[0]
            || role_text(a)[1] != role_text(b)[1]);
    }
}

} // verus!
