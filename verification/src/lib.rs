//! Verified core of a code-search index: segment files, overlay, sidecar
//! codecs, change detection and compaction planning.

use vstd::prelude::*;

pub mod batch_apply;
pub mod bitmap;
pub mod build_laws;
pub mod byte_map;
pub mod change_laws;
pub mod commit;
pub mod commit_laws;
pub mod compact;
pub mod compact_index;
pub mod compact_laws;
pub mod compact_plan;
pub mod config;
pub mod deletes_idx;
pub mod content_laws;
pub mod decision_laws;
pub mod delta;
pub mod encoding;
pub mod error;
pub mod external_build;
pub mod files;
pub mod flush;
pub mod frame;
pub mod freshness;
pub mod full_build;
pub mod git;
pub mod hash;
pub mod index;
pub mod le;
pub mod manifest;
pub mod mem_index;
pub mod open;
pub mod open_laws;
pub mod order;
pub mod overlay;
pub mod path_index;
pub mod path_resolve;
pub mod path_laws;
pub mod paths;
pub mod paths_idx;
pub mod pending;
pub mod plan_laws;
pub mod posting;
pub mod references;
pub mod reopen_laws;
pub mod rewrite_laws;
pub mod search;
pub mod segment;
pub mod snapshot;
pub mod stats;
pub mod status_laws;
pub mod summary;
pub mod text;
pub mod update;
pub mod walk;
pub mod walk_laws;
pub mod worktree_anchor;
pub mod worktree_codec;

verus! {

} // verus!
