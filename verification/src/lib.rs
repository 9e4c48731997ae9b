//! Semantic analysis of a Rust source tree: parses every file of a crate,
//! links its module tree, resolves impl blocks to the types and traits they
//! belong to, and answers queries over the result.

pub mod bridge;
pub mod query;
pub mod resolve;
pub mod resolve_bridge;
pub mod syntax;
pub mod text;
pub mod types;
pub mod workspaces;

use vstd::prelude::*;
use crate::resolve::db::{built_from, Db};
use crate::resolve::parse::{entry_parses, ResolveError, SourceText};
use crate::resolve_bridge::{build_workspace, workspace_from};
use crate::workspaces::Workspace;

verus! {

/// Where the crate to analyse lives.
pub struct Config {
    /// The crate's `Cargo.toml`; its sources are under `src/` beside it.
    pub manifest_path: String,
    /// Set aside for an on-disk cache of the resolved database; nothing is
    /// stored there yet.
    pub target_dir: String,
}

/// Resolves the crate target rooted at `entry_file` from its sources and
/// turns the result into a workspace. Fails exactly when the entry file is
/// not among the sources that parse.
pub fn analysis(sources: Vec<SourceText>, src_dir: &str, entry_file: &str) -> (r: Result<Workspace, ResolveError>)
    ensures
        r is Err <==> !entry_parses(sources@, entry_file@),
        r matches Err(e) ==> e.entry_view() == entry_file@ && e.src_dir_view() == src_dir@,
        r matches Ok(ws) ==> exists|db: Db| #[trigger] built_from(db, sources@, entry_file@) && workspace_from(ws, db),
{
    let ghost srcs = sources@;
    match Db::build(sources, src_dir, entry_file) {
        Ok(db) => {
            let ghost g = db;
            let ws = build_workspace(db);
            assert(built_from(g, srcs, entry_file@) && workspace_from(ws, g));
            assert(exists|db: Db| #[trigger] built_from(db, srcs, entry_file@) && workspace_from(ws, db));
            Ok(ws)
        },
        Err(e) => Err(e),
    }
}

} // verus!
