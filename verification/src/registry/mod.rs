//! Registries: named entries with dense ids, facet columns and block states.
pub mod error;

pub use error::{BuildError, BuildErrorKind, RegistryError};
pub mod plan;
pub mod builder;
pub mod column;
pub mod steps;
pub mod table;
pub mod kind;
pub mod view;

pub use view::RegistryView;

pub use kind::Kind;

pub use builder::{Entry, EntryRef, RegistryBuilder};
pub use table::{Perm, Registry, RegistryInit, Remap};
