//! Properties identified by a stable key.
use vstd::prelude::*;
use crate::key::StableKey;

verus! {

/// One property run of an entry in a state view: the property's index,
/// its number of values and its stride.
#[derive(Clone, Copy)]
pub struct Slot {
    pub property: u32,
    pub count: u32,
    pub stride: u32,
}

/// A property identified by a stable key.
pub trait Property {
    type Key: StableKey + ?Sized + 'static;

    const KEY: &'static Self::Key;
}

} // verus!
