//! Borrowed view of the states of a registry.
use vstd::prelude::*;
use crate::key::Keyspace;
use crate::state::keyed::Slot;

verus! {

pub struct StateRegistryView<'a, V: Keyspace> {
    /// Entry `e` owns states `bases[e]..bases[e + 1]`; `bases[n]` is the total.
    pub bases: &'a [u32],
    /// Entry `e`'s slots are `slots[slot_offsets[e]..slot_offsets[e + 1]]`.
    pub slot_offsets: &'a [u32],
    /// Slot runs, indexed through `slot_offsets`.
    pub slots: &'a [Slot],
    /// Distinct property keys, sorted; `Slot::property` indexes them.
    pub properties: &'a [V::Property],
    /// Value keys of all properties: property `p`'s values are
    /// `values[value_runs[p]..value_runs[p + 1]]`.
    pub values: &'a [V::Value],
    /// Prefix offsets into `values`.
    pub value_runs: &'a [u32],
}

impl<'a, V: Keyspace> Clone for StateRegistryView<'a, V> {
    fn clone(&self) -> (r: Self)
        ensures
            r == *self,
    {
        StateRegistryView {
            bases: self.bases,
            slot_offsets: self.slot_offsets,
            slots: self.slots,
            properties: self.properties,
            values: self.values,
            value_runs: self.value_runs,
        }
    }
}

impl<'a, V: Keyspace> Copy for StateRegistryView<'a, V> {
}

} // verus!
