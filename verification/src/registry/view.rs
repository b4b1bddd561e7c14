//! Borrowed view of a whole registry.
use vstd::prelude::*;
use crate::entry::EntryRegistryView;
use crate::facet::view::ColumnRegistryView;
use crate::key::Keyspace;
use crate::state::view::StateRegistryView;

verus! {

/// A registry's entries, and, when it has them, its states and columns.
pub struct RegistryView<'a, V: Keyspace> {
    pub kind: Option<&'a ()>,
    pub entries: EntryRegistryView<'a>,
    pub states: Option<StateRegistryView<'a, V>>,
    pub columns: Option<ColumnRegistryView<'a>>,
}

impl<'a, V: Keyspace> Clone for RegistryView<'a, V> {
    fn clone(&self) -> (r: Self)
        ensures
            r == *self,
    {
        RegistryView { kind: self.kind, entries: self.entries, states: self.states, columns: self.columns }
    }
}

impl<'a, V: Keyspace> Copy for RegistryView<'a, V> {
}

} // verus!
