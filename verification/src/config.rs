//! Settings of an index.

use crate::le;
use vstd::prelude::*;

verus! {

/// Settings for building and searching an index.
#[derive(Debug)]
pub struct Config {
    /// Files above this size are not indexed.
    pub max_file_size: u64,
    /// More segments than this are merged.
    pub max_segments: usize,
    /// Directory of the index.
    pub index_dir: Vec<u8>,
    /// Root of the repository.
    pub repo_root: Vec<u8>,
    /// Whether the command line tool logs in detail.
    pub verbose: bool,
    /// Refuse index directories that others may enter.
    pub strict_permissions: bool,
    /// Check the checksums of all segment files when an index is opened.
    pub verify_on_open: bool,
    /// Measure the scan threshold again although one is recorded.
    pub recalibrate: bool,
    /// Update the index before a search.
    pub auto_update: bool,
    /// The most changed files that such an update takes.
    pub auto_update_max_files: usize,
    /// The most milliseconds that such an update may spend on detection.
    pub auto_update_budget_ms: u64,
    /// Catch up in the background where such an update gave up.
    pub auto_update_async_catchup: bool,
    /// Index checkouts of other repositories inside this one.
    pub index_nested_checkouts: bool,
}

impl Config {
    /// The default settings for an index directory and a repository.
    pub fn new(index_dir: Vec<u8>, repo_root: Vec<u8>) -> (c: Self)
        ensures
            c.index_dir@ == index_dir@,
            c.repo_root@ == repo_root@,
            c.max_file_size == 10_485_760,
            c.max_segments == 10,
            !c.verbose,
            c.strict_permissions,
            !c.verify_on_open,
            !c.recalibrate,
            c.auto_update,
            c.auto_update_max_files == 200,
            c.auto_update_budget_ms == 150,
            c.auto_update_async_catchup,
            !c.index_nested_checkouts,
    {
        Config {
            max_file_size: 10_485_760,
            max_segments: 10,
            index_dir,
            repo_root,
            verbose: false,
            strict_permissions: true,
            verify_on_open: false,
            recalibrate: false,
            auto_update: true,
            auto_update_max_files: 200,
            auto_update_budget_ms: 150,
            auto_update_async_catchup: true,
            index_nested_checkouts: false,
        }
    }

    /// The segment limit, at least one.
    pub open spec fn segment_limit(self) -> usize {
        if self.max_segments == 0 {
            1
        } else {
            self.max_segments
        }
    }

    pub(crate) fn max_segments_at_least_one(&self) -> (n: usize)
        ensures
            n == self.segment_limit(),
    {
        if self.max_segments == 0 {
            1
        } else {
            self.max_segments
        }
    }
}

/// `.syntext`.
pub open spec fn default_index_dir() -> Seq<u8> {
    seq![0x2Eu8, 0x73, 0x79, 0x6E, 0x74, 0x65, 0x78, 0x74]
}

/// `.`.
pub open spec fn current_dir() -> Seq<u8> {
    seq![0x2Eu8]
}

impl Default for Config {
    fn default() -> (c: Self)
        ensures
            c.index_dir@ == default_index_dir(),
            c.repo_root@ == current_dir(),
            c.max_file_size == 10_485_760,
            c.max_segments == 10,
            !c.verbose,
            c.strict_permissions,
            !c.verify_on_open,
            !c.recalibrate,
            c.auto_update,
            c.auto_update_max_files == 200,
            c.auto_update_budget_ms == 150,
            c.auto_update_async_catchup,
            !c.index_nested_checkouts,
    {
        let dir: [u8; 8] = [0x2E, 0x73, 0x79, 0x6E, 0x74, 0x65, 0x78, 0x74];
        let root: [u8; 1] = [0x2E];
        assert(dir@ =~= default_index_dir());
        assert(root@ =~= current_dir());
        Config::new(le::bytes_clone(&dir), le::bytes_clone(&root))
    }
}

} // verus!
