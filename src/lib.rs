//! Statement-level tree shaking for a JavaScript bundler: statement
//! descriptors, the intra-module statement graph, export resolution, the
//! used-ident propagator and the side-effect oracle.

mod digraph;
mod exports;
mod graph;
mod ident;
pub mod laws;
mod less;
mod node_polyfill;
mod plugin;
mod propagate;
mod side_effects;

pub use exports::{
    ExportInfo, ExportInfoMatch, ExportSource, ExportSpecifierInfo, ImportInfo, ImportSpecifierInfo,
    StatementId,
};
pub use graph::{Statement, StatementGraph, StatementGraphEdge};
pub use ident::{is_ident_equal, strip_context};
pub use less::{less_args, less_failure, less_runner, LessPlugin, LessRunner};
pub use node_polyfill::get_node_builtins;
pub use plugin::{
    content_from_result, hook_admits, hook_content, partition_style_paths, rebuild_paths,
    resolve_id_resource, style_source, Content, ContentError, JsContent, ResolveIdResult,
    TransformResult,
};
pub use propagate::{keep_live_statements, remove_dead_statements, UsedIdent};
pub use side_effects::{
    match_flag, match_glob_pattern, ModuleInfo, PackageJson, Resolution, ResolverResource,
    SideEffectsEntry, SideEffectsFlag,
};
