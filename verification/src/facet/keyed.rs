//! Facets identified by a stable key.
use vstd::prelude::*;
use crate::key::StableKey;

verus! {

/// A facet identified by a stable key.
pub trait Facet {
    type Key: StableKey + ?Sized + 'static;

    const KEY: &'static Self::Key;
}

} // verus!
