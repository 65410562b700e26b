//! Builds from a list of files that the caller supplies.

use crate::error::IndexError;
use crate::order;
use crate::path_laws;
use crate::path_resolve;
use crate::walk;
use crate::walk::{FileRecord, RecordView};
use vstd::prelude::*;

verus! {

/// A file that the caller wants indexed.
#[derive(Debug)]
pub struct ExternalFileRecord {
    /// The path to read it from.
    pub absolute_path: Vec<u8>,
    /// Its path in the repository.
    pub relative_path: Vec<u8>,
    /// Its size when it was found.
    pub size_bytes: u64,
}

/// The record of a supplied file.
pub open spec fn as_record(r: ExternalFileRecord) -> RecordView {
    RecordView { read_path: r.absolute_path@, rel: r.relative_path@, size: r.size_bytes }
}

/// The records of supplied files.
pub open spec fn as_records(s: Seq<ExternalFileRecord>) -> Seq<RecordView> {
    Seq::new(s.len(), |i: int| as_record(s[i]))
}

/// The path of a supplied file leads out of the repository.
pub open spec fn is_outside(r: ExternalFileRecord) -> bool {
    path_resolve::escapes(path_resolve::components(r.relative_path@))
}

/// `i` is the first supplied file whose path leads out of the repository.
pub open spec fn first_outside(s: Seq<ExternalFileRecord>, i: int) -> bool {
    &&& 0 <= i < s.len()
    &&& is_outside(s[i])
    &&& forall|k: int| 0 <= k < i ==> !is_outside(#[trigger] s[k])
}

/// What listing supplied files gives.
pub open spec fn is_listing(
    records: Seq<ExternalFileRecord>,
    r: Result<Vec<FileRecord>, IndexError>,
) -> bool {
    match r {
        Ok(v) => {
            &&& forall|i: int| 0 <= i < records.len() ==> !is_outside(#[trigger] records[i])
            &&& order::rearranged(as_records(records), walk::record_views(v@))
            &&& walk::rel_sorted(walk::record_views(v@))
        },
        Err(e) => exists|i: int| #[trigger]
            first_outside(records, i) && (e matches IndexError::PathOutsideRepo(p) && p@
                == records[i].relative_path@),
    }
}

/// The supplied files as records in the order of their paths; refused where one
/// leads out of the repository.
pub fn normalize_external_records(records: Vec<ExternalFileRecord>) -> (r: Result<
    Vec<FileRecord>,
    IndexError,
>)
    ensures
        is_listing(records@, r),
{
    let ghost rs = records@;
    let mut queue = records;
    let mut v: Vec<FileRecord> = Vec::new();
    let ghost mut n: int = 0;
    assert(queue@ =~= rs.skip(0));
    assert(walk::record_views(v@) =~= as_records(rs.take(0)));
    while queue.len() > 0
        invariant
            0 <= n <= rs.len(),
            queue@ == rs.skip(n),
            walk::record_views(v@) == as_records(rs.take(n)),
            forall|i: int| 0 <= i < n ==> !is_outside(#[trigger] rs[i]),
            rs == records@,
        decreases queue@.len(),
    {
        let record = queue.remove(0);
        let ghost before = walk::record_views(v@);
        proof {
            assert(rs.skip(n)[0] == rs[n]);
            assert(queue@ =~= rs.skip(n + 1));
        }
        if path_resolve::leads_outside(record.relative_path.as_slice()) {
            assert(first_outside(rs, n));
            return Err(IndexError::PathOutsideRepo(record.relative_path));
        }
        let file: FileRecord = (record.absolute_path, record.relative_path, record.size_bytes);
        let ghost fv = walk::record_view(file);
        v.push(file);
        proof {
            assert(walk::record_views(v@) =~= before.push(fv));
            assert(as_records(rs.take(n + 1)) =~= as_records(rs.take(n)).push(as_record(rs[n])));
            n = n + 1;
        }
    }
    assert(n == rs.len());
    assert(rs.take(n) =~= rs);
    walk::sort_records(&mut v);
    Ok(v)
}

/// The file is listed as it was supplied: to be read from its absolute path, under its
/// relative path and with its size.
pub open spec fn is_listed(v: Seq<FileRecord>, r: ExternalFileRecord) -> bool {
    exists|j: int|
        0 <= j < v.len() && (#[trigger] v[j]).0@ == r.absolute_path@ && v[j].1@
            == r.relative_path@ && v[j].2 == r.size_bytes
}

/// Every supplied file is listed as it was supplied, and nothing else is listed.
pub proof fn law_supplied_files_are_listed(
    records: Seq<ExternalFileRecord>,
    list: Vec<FileRecord>,
)
    requires
        is_listing(records, Ok::<Vec<FileRecord>, IndexError>(list)),
    ensures
        list@.len() == records.len(),
        forall|i: int| 0 <= i < records.len() ==> is_listed(list@, #[trigger] records[i]),
{
    let v = list@;
    let a = as_records(records);
    let b = walk::record_views(v);
    order::lemma_rearranged_contains(a, b);
    assert forall|i: int| 0 <= i < records.len() implies is_listed(v, #[trigger] records[i]) by {
        assert(a[i] == as_record(records[i]));
        assert(a.contains(a[i]));
        let j = choose|j: int| 0 <= j < b.len() && b[j] == a[i];
        assert(b[j] == walk::record_view(v[j]));
    }
}

/// Supplied files are refused exactly if the path of one of them leads out of the
/// repository.
pub proof fn law_supplied_files_are_refused_for_a_path(
    records: Seq<ExternalFileRecord>,
    r: Result<Vec<FileRecord>, IndexError>,
)
    requires
        is_listing(records, r),
    ensures
        r is Err <==> exists|i: int|
            0 <= i < records.len() && path_resolve::escapes(
                path_resolve::components((#[trigger] records[i]).relative_path@),
            ),
{
    if r is Err {
        let i = choose|i: int| #[trigger] first_outside(records, i);
        assert(is_outside(records[i]));
    }
    if r is Ok {
        assert forall|i: int| 0 <= i < records.len() implies !path_resolve::escapes(
            path_resolve::components((#[trigger] records[i]).relative_path@),
        ) by {
            assert(!is_outside(records[i]));
        }
    }
}

/// A supplied path leads out of the repository exactly if the root or `..` is among its
/// components.
pub proof fn law_supplied_paths_stay_inside(r: ExternalFileRecord)
    ensures
        is_outside(r) <==> path_resolve::components(r.relative_path@).contains(seq![0x2Fu8])
            || path_resolve::components(r.relative_path@).contains(seq![0x2Eu8, 0x2Eu8]),
{
    path_laws::law_ways_out(path_resolve::components(r.relative_path@));
}

} // verus!
