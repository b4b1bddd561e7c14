//! Stable keys that identify kinds, entries, properties, values and facets
//! across runs.
use core::marker::PhantomData;
use vstd::prelude::*;

verus! {

/// A key that stays the same from one run to the next.
pub trait StableKey: Ord + Clone + core::hash::Hash + Send + Sync + 'static {
}

impl<T: Ord + Clone + core::hash::Hash + Send + Sync + 'static> StableKey for T {
}

/// The key types of one registry family.
pub trait Keyspace {
    type Kind: StableKey;

    type Entry: StableKey;

    type Property: StableKey;

    type Value: StableKey;

    type Facet: StableKey;
}

/// The keys of one id space, as text: key `i` is
/// `bytes[offsets[i]..offsets[i + 1]]`.
pub struct KeyTable<'a, P> {
    pub offsets: &'a [u32],
    pub bytes: &'a [u8],
    pub space: PhantomData<P>,
}

impl<'a, P> Clone for KeyTable<'a, P> {
    fn clone(&self) -> (r: Self)
        ensures
            r == *self,
    {
        KeyTable { offsets: self.offsets, bytes: self.bytes, space: PhantomData }
    }
}

impl<'a, P> Copy for KeyTable<'a, P> {
}

} // verus!
