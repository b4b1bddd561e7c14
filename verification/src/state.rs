//! Block-state properties.
use core::any::TypeId;
use vstd::prelude::*;

pub mod keyed;
pub mod view;

pub use keyed::Slot;
pub use view::StateRegistryView;

verus! {

/// A finite property of an entry's states, such as a facing or a lit flag.
/// Each value is numbered `0..COUNT`.
pub trait Property: Sized + 'static {
    /// A label for the property, used in error reports.
    const NAME: &'static str;

    /// Number of values; must be nonzero.
    const COUNT: u32;

    fn to_raw(self) -> u32;

    fn from_raw(raw: u32) -> Self;
}

/// Where one property sits in an entry's mixed-radix state number.
#[derive(Clone, Copy)]
pub struct PropertySlot {
    pub id: TypeId,
    pub count: u32,
    pub stride: u32,
}

/// A property declared on an entry.
#[derive(Clone, Copy)]
pub struct PropertyDeclaration {
    pub id: TypeId,
    pub count: u32,
    pub name: &'static str,
}

} // verus!
