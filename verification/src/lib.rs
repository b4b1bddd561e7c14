//! Registries of named entries with dense numeric ids, typed per-entry
//! columns and mixed-radix block states.

pub mod id;

pub use id::{
    AnyEntryId, AnyRawId, AnyStateId, EntryId, EntrySpace, Erased, FacetSpace, Id, IdSpace,
    KindSpace, PropertySpace, RawId, StateId, StateSpace, ValueSpace,
};
pub mod name;
pub mod order;
pub mod counting;
pub mod radix;
pub mod text;
pub mod hash;
pub mod index_map;
pub use name::{Name, NameError};
mod erased;
pub mod facet;
pub use facet::{Column, ColumnIter, ColumnRegistryView, ColumnView, Facet, Storage};
pub mod entry;
pub use entry::EntryRegistryView;
pub mod key;
pub mod state;
pub use key::{KeyTable, Keyspace, StableKey};
pub use state::{Property, Slot, StateRegistryView};
pub mod registry;
pub mod registries;
pub use registries::{
    Registries, RegistriesBuildError, RegistriesBuildErrorKind, RegistriesBuilder, RegistriesError, RegistriesInit,
};
pub use registry::{
    BuildError, BuildErrorKind, Entry, EntryRef, Kind, Perm, Registry, RegistryBuilder, RegistryError, RegistryInit,
    RegistryView, Remap,
};
