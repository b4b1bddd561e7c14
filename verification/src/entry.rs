//! Borrowed view of the entries of a registry.
use vstd::prelude::*;
use crate::id::{AnyEntryId, EntrySpace};
use crate::key::KeyTable;

verus! {

/// The entries of a registry: their keys by id, and their ids in key order.
#[derive(Clone, Copy)]
pub struct EntryRegistryView<'a> {
    /// `entries` holds the key of each entry, by id.
    pub entries: KeyTable<'a, EntrySpace>,
    /// `sorted[i]` is the id whose key ranks `i`-th.
    pub sorted: &'a [AnyEntryId],
}

} // verus!
