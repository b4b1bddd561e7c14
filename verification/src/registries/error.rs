//! Errors of assembling a family of registries.
use vstd::prelude::*;
use crate::name::Name;
use crate::registry::error::{BuildError, BuildErrorKind};
use crate::text::{decimal, push_decimal};
use vstd::string::StringExecFns;

verus! {

/// Refusal to add a kind.
#[derive(Debug, PartialEq, Eq, Clone)]
pub enum RegistriesError<S = Name> {
    /// A registry of this kind (given by its key) was already added.
    DuplicateKind(&'static str),
    /// Another kind was already added under this stable id.
    DuplicateKindStableId(S),
}

/// The kinds whose registry failed to build, in order.
#[derive(Debug, PartialEq, Eq, Clone)]
pub struct RegistriesBuildError<S = Name> {
    pub(crate) errors: Vec<RegistriesBuildErrorKind<S>>,
}

/// One kind whose registry failed to build, with its build error.
#[derive(Debug, PartialEq, Eq, Clone)]
pub struct RegistriesBuildErrorKind<S = Name> {
    pub stable_id: S,
    pub build: BuildError<S>,
}

impl<S: View> View for RegistriesError<S> {
    type V = RegistriesError<S::V>;

    open spec fn view(&self) -> RegistriesError<S::V> {
        match self {
            RegistriesError::DuplicateKind(k) => RegistriesError::DuplicateKind(*k),
            RegistriesError::DuplicateKindStableId(s) => RegistriesError::DuplicateKindStableId(s@),
        }
    }
}

impl<S: View> View for RegistriesBuildErrorKind<S> {
    type V = (S::V, Seq<BuildErrorKind<S::V>>);

    open spec fn view(&self) -> (S::V, Seq<BuildErrorKind<S::V>>) {
        (self.stable_id@, self.build@)
    }
}

impl<S: View> View for RegistriesBuildError<S> {
    type V = Seq<(S::V, Seq<BuildErrorKind<S::V>>)>;

    closed spec fn view(&self) -> Seq<(S::V, Seq<BuildErrorKind<S::V>>)> {
        self.errors@.map_values(|e: RegistriesBuildErrorKind<S>| e@)
    }
}

impl<S: View> RegistriesBuildError<S> {
    /// The error made of these failures.
    pub(crate) fn new(errors: Vec<RegistriesBuildErrorKind<S>>) -> (r: Self)
        ensures
            r@ == errors@.map_values(|e: RegistriesBuildErrorKind<S>| e@),
    {
        RegistriesBuildError { errors }
    }

    /// The failed kinds, in order.
    pub fn errors(&self) -> (r: &[RegistriesBuildErrorKind<S>])
        ensures
            r@.map_values(|e: RegistriesBuildErrorKind<S>| e@) == self@,
    {
        self.errors.as_slice()
    }
}


/// The message of a refused kind.
pub open spec fn registries_error_message(e: RegistriesError<Seq<char>>) -> Seq<char> {
    match e {
        RegistriesError::DuplicateKind(k) => k@ + " kind already exists"@,
        RegistriesError::DuplicateKindStableId(s) => s
            + " kind stable id already exists under different kind"@,
    }
}

impl RegistriesError<Name> {
    /// The message this error is shown with.
    pub fn to_string(&self) -> (r: String)
        ensures
            r@ == registries_error_message(self@),
    {
        match self {
            RegistriesError::DuplicateKind(k) => {
                let mut t = String::from_str(k);
                t.append(" kind already exists");
                t
            },
            RegistriesError::DuplicateKindStableId(s) => {
                let mut t = String::from_str(s.as_str());
                t.append(" kind stable id already exists under different kind");
                t
            },
        }
    }
}

impl RegistriesBuildError<Name> {
    /// The message this error is shown with: how many kinds failed.
    pub fn to_string(&self) -> (r: String)
        ensures
            r@ == "failed to build this many kinds "@ + decimal(self@.len()),
    {
        let mut t = String::from_str("failed to build this many kinds ");
        push_decimal(&mut t, self.errors.len() as u64);
        t
    }
}

impl RegistriesBuildErrorKind<Name> {
    /// The message this failure is shown with: which kind failed.
    pub fn to_string(&self) -> (r: String)
        ensures
            r@ == "failed to build kind "@ + self.stable_id@,
    {
        let mut t = String::from_str("failed to build kind ");
        t.append(self.stable_id.as_str());
        t
    }

    /// The build error of this kind, the cause of the failure.
    pub fn source(&self) -> (r: Option<&BuildError<Name>>)
        ensures
            r == Some(&self.build),
    {
        Some(&self.build)
    }
}

} // verus!
