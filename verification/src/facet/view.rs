//! Borrowed views of the facet columns of a registry.
use vstd::prelude::*;
use crate::id::{AnyEntryId, FacetSpace};
use crate::key::KeyTable;

verus! {

/// The columns of a registry, with their values as bytes.
#[derive(Clone, Copy)]
pub struct ColumnRegistryView<'a> {
    /// Column keys, sorted.
    pub facets: KeyTable<'a, FacetSpace>,
    /// Whether each column is sparse (`false` is dense).
    pub sparse: &'a [bool],
    /// Prefix offsets into the value space: column `i` owns values
    /// `col_runs[i]..col_runs[i + 1]`.
    pub col_runs: &'a [u32],
    /// Entry ids of the sparse columns, concatenated.
    pub ids: &'a [AnyEntryId],
    /// Byte offsets into `bytes`.
    pub bytes_offsets: &'a [u32],
    /// Value `v` is `bytes[bytes_offsets[v]..bytes_offsets[v + 1]]`.
    pub bytes: &'a [u8],
    /// Per column, the hash of its byte layout; `None` when not declared.
    pub layouts: &'a [Option<u64>],
}

/// One column of a registry, with its values as bytes.
#[derive(Clone, Copy)]
pub struct ColumnView<'a> {
    /// Entry ids of a sparse column; `None` for a dense one.
    pub ids: Option<&'a [AnyEntryId]>,
    pub bytes_offsets: &'a [u32],
    pub bytes: &'a [u8],
    pub layout: Option<u64>,
}

} // verus!
