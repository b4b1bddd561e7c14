//! Kinds of registries.
use vstd::prelude::*;
use crate::key::StableKey;

verus! {

/// A kind of registry (blocks, items, ...), identified by a stable key.
pub trait Kind {
    type Key: StableKey + ?Sized + 'static;

    const KEY: &'static Self::Key;
}

} // verus!
