//! Blast-radius analysis over a language-agnostic symbol graph.
pub mod adapter;
pub mod change;
pub mod config;
pub mod cpp;
pub mod diff;
pub mod engine;
pub mod go;
pub mod go_calls;
pub mod graph;
pub mod indexer;
pub mod indices;
pub mod link;
pub mod linker;
pub mod order;
pub mod packages;
pub mod parse;
pub mod radius;
pub mod scope;
pub mod syntax;
pub mod text;
pub mod workspace;

pub use adapter::{ContractRef, ContractRole, PackageDecl, PackageDependency, RefDecl, RefTarget, SymbolDecl};
pub use change::{parse_change, ChangeSpec, ParseChangeError};
pub use config::{DetectorConfig, DetectorOverrides, EventStrategy};
pub use cpp::CppAdapter;
pub use diff::{diff_fits, parse_unified_diff, DiffTouches};
pub use engine::{
    apply_explain, compute_change_impact, compute_diff_impact, compute_file_impact, compute_symbol_impact,
    filter_min_confidence, Dependent, ImpactReport,
};
pub use go_calls::GoAdapter;
pub use graph::{Confidence, ContractKind, Edge, EdgeKind, Node, NodeId, NodeKind, SymbolGraph};
pub use indexer::{
    check_globs, content_hash, decl_node, event_diff, event_wiring, needs_reindex, route_file, synthesize_contracts, GlobError, IndexStats,
    OrphanedEvent,
};
pub use link::link;
pub use parse::{build_tree, parse_cpp, parse_go, ParseFailure, ParsedNode};
pub use linker::Resolver;
pub use scope::FileScope;
pub use syntax::{SourceFile, Syntax};
pub use workspace::{
    cross_project_matches, CrossProjectMatch, LinkConfidence, Workspace, WorkspaceImpactReport, WorkspaceLink,
    WorkspaceProject,
};
