//! Errors of building a registry.
use vstd::prelude::*;
use crate::name::Name;
use crate::text::{decimal, push_decimal};
use vstd::string::StringExecFns;

verus! {

/// Refusal of a single builder operation.
#[derive(Debug, Clone, PartialEq, Eq)]
pub enum RegistryError<S = Name> {
    /// An entry with this stable id already exists.
    DuplicateStableId(S),
}

/// Every problem found while building a registry, in the order found.
#[derive(Debug, Clone, PartialEq, Eq)]
pub struct BuildError<S = Name> {
    pub(crate) errors: Vec<BuildErrorKind<S>>,
}

/// One problem found while building a registry.
#[derive(Debug, Clone, PartialEq, Eq)]
#[non_exhaustive]
#[allow(inconsistent_fields)]
pub enum BuildErrorKind<S = Name> {
    /// A required facet has no value for this entry.
    MissingComponent { entry: S, component: &'static str },
    /// This entry was given the same facet more than once.
    DuplicateComponent { entry: S, component: &'static str },
    /// The entry was pinned to a slot past the last id.
    PinOutOfRange { entry: S, slot: u32, len: u32 },
    /// Two entries were pinned to the same slot.
    PinConflict { first: S, second: S, slot: u32 },
    /// The entry was pinned twice.
    DoublePin { entry: S, first: u32, second: u32 },
    /// A column for this facet already exists.
    DuplicateColumn { component: &'static str },
    /// A value was given for an id past the last entry.
    InsertOutOfRange { component: &'static str, id: u32, len: u32 },
    /// The registry has more entries than its cap.
    CapExceeded { len: u32, cap: u32 },
    /// The entry declares the same property twice.
    DuplicateProperty { entry: S, property: &'static str },
    /// The entry's state count does not fit in `u32`.
    TooManyStates { entry: S },
    /// The total state count stops fitting in `u32` at this entry.
    TooManyStatesTotal { entry: S },
}

impl<S: View> View for RegistryError<S> {
    type V = RegistryError<S::V>;

    open spec fn view(&self) -> RegistryError<S::V> {
        match self {
            RegistryError::DuplicateStableId(s) => RegistryError::DuplicateStableId(s@),
        }
    }
}

impl<S: View> View for BuildErrorKind<S> {
    type V = BuildErrorKind<S::V>;

    open spec fn view(&self) -> BuildErrorKind<S::V> {
        match *self {
            BuildErrorKind::MissingComponent { entry, component } => BuildErrorKind::MissingComponent {
                entry: entry@,
                component,
            },
            BuildErrorKind::DuplicateComponent { entry, component } => BuildErrorKind::DuplicateComponent {
                entry: entry@,
                component,
            },
            BuildErrorKind::PinOutOfRange { entry, slot, len } => BuildErrorKind::PinOutOfRange {
                entry: entry@,
                slot,
                len,
            },
            BuildErrorKind::PinConflict { first, second, slot } => BuildErrorKind::PinConflict {
                first: first@,
                second: second@,
                slot,
            },
            BuildErrorKind::DoublePin { entry, first, second } => BuildErrorKind::DoublePin {
                entry: entry@,
                first,
                second,
            },
            BuildErrorKind::DuplicateColumn { component } => BuildErrorKind::DuplicateColumn {
                component,
            },
            BuildErrorKind::InsertOutOfRange { component, id, len } => BuildErrorKind::InsertOutOfRange {
                component,
                id,
                len,
            },
            BuildErrorKind::CapExceeded { len, cap } => BuildErrorKind::CapExceeded { len, cap },
            BuildErrorKind::DuplicateProperty { entry, property } => BuildErrorKind::DuplicateProperty {
                entry: entry@,
                property,
            },
            BuildErrorKind::TooManyStates { entry } => BuildErrorKind::TooManyStates { entry: entry@ },
            BuildErrorKind::TooManyStatesTotal { entry } => BuildErrorKind::TooManyStatesTotal {
                entry: entry@,
            },
        }
    }
}

impl<S: View> View for BuildError<S> {
    type V = Seq<BuildErrorKind<S::V>>;

    closed spec fn view(&self) -> Seq<BuildErrorKind<S::V>> {
        self.errors@.map_values(|e: BuildErrorKind<S>| e@)
    }
}

impl<S: View> BuildError<S> {
    /// The error made of these problems.
    pub(crate) fn new(errors: Vec<BuildErrorKind<S>>) -> (r: Self)
        ensures
            r@ == errors@.map_values(|e: BuildErrorKind<S>| e@),
    {
        BuildError { errors }
    }

    /// The problems, in the order found.
    pub fn errors(&self) -> (r: &[BuildErrorKind<S>])
        ensures
            r@.map_values(|e: BuildErrorKind<S>| e@) == self@,
    {
        self.errors.as_slice()
    }
}


/// The message of a refused operation: `<stable id> already in registry`.
pub open spec fn registry_error_message(e: RegistryError<Seq<char>>) -> Seq<char> {
    match e {
        RegistryError::DuplicateStableId(s) => s + " already in registry"@,
    }
}

/// The message of one build problem.
pub open spec fn kind_message(e: BuildErrorKind<Seq<char>>) -> Seq<char> {
    match e {
        BuildErrorKind::MissingComponent { entry, component } => entry + " missing "@ + component@,
        BuildErrorKind::DuplicateComponent { entry, component } => entry + " has duplicate "@
            + component@,
        BuildErrorKind::PinOutOfRange { entry, slot, len } => entry + " pinned to "@ + decimal(
            slot as nat,
        ) + " but registry has "@ + decimal(len as nat) + " entries"@,
        BuildErrorKind::PinConflict { first, second, slot } => "slot "@ + decimal(slot as nat)
            + " pinned to both "@ + first + " and "@ + second,
        BuildErrorKind::DoublePin { entry, first, second } => entry + " pinned to both "@ + decimal(
            first as nat,
        ) + " and "@ + decimal(second as nat) + " slots"@,
        BuildErrorKind::DuplicateColumn { component } => component@ + " already exists"@,
        BuildErrorKind::InsertOutOfRange { component, id, len } => component@ + " value for id "@
            + decimal(id as nat) + " but registry has "@ + decimal(len as nat) + " entries"@,
        BuildErrorKind::CapExceeded { len, cap } => "registry has "@ + decimal(len as nat)
            + " entries but cap is "@ + decimal(cap as nat),
        BuildErrorKind::DuplicateProperty { entry, property } => entry + " has duplicate property "@
            + property@,
        BuildErrorKind::TooManyStates { entry } => entry + " state count overflows u32"@,
        BuildErrorKind::TooManyStatesTotal { entry } => "total state count overflows u32 at "@
            + entry,
    }
}

/// The messages of `errs`, the first after a space and each other after `; `.
pub open spec fn kinds_message(errs: Seq<BuildErrorKind<Seq<char>>>) -> Seq<char>
    decreases errs.len(),
{
    if errs.len() == 0 {
        Seq::empty()
    } else {
        kinds_message(errs.drop_last()) + (if errs.len() == 1 {
            " "@
        } else {
            "; "@
        }) + kind_message(errs.last())
    }
}

/// The message of a failed build: the number of problems, then each of them.
pub open spec fn build_error_message(errs: Seq<BuildErrorKind<Seq<char>>>) -> Seq<char> {
    decimal(errs.len()) + (if errs.len() == 1 {
        " build error:"@
    } else {
        " build errors:"@
    }) + kinds_message(errs)
}

impl RegistryError<Name> {
    /// The message this error is shown with.
    pub fn to_string(&self) -> (r: String)
        ensures
            r@ == registry_error_message(self@),
    {
        match self {
            RegistryError::DuplicateStableId(s) => {
                let mut t = String::from_str(s.as_str());
                t.append(" already in registry");
                t
            },
        }
    }
}

impl BuildErrorKind<Name> {
    /// The message this problem is shown with.
    pub fn to_string(&self) -> (r: String)
        ensures
            r@ == kind_message(self@),
    {
        let mut t;
        match self {
            BuildErrorKind::MissingComponent { entry, component } => {
                t = String::from_str(entry.as_str());
                t.append(" missing ");
                t.append(component);
            },
            BuildErrorKind::DuplicateComponent { entry, component } => {
                t = String::from_str(entry.as_str());
                t.append(" has duplicate ");
                t.append(component);
            },
            BuildErrorKind::PinOutOfRange { entry, slot, len } => {
                t = String::from_str(entry.as_str());
                t.append(" pinned to ");
                push_decimal(&mut t, *slot as u64);
                t.append(" but registry has ");
                push_decimal(&mut t, *len as u64);
                t.append(" entries");
            },
            BuildErrorKind::PinConflict { first, second, slot } => {
                t = String::from_str("slot ");
                push_decimal(&mut t, *slot as u64);
                t.append(" pinned to both ");
                t.append(first.as_str());
                t.append(" and ");
                t.append(second.as_str());
            },
            BuildErrorKind::DoublePin { entry, first, second } => {
                t = String::from_str(entry.as_str());
                t.append(" pinned to both ");
                push_decimal(&mut t, *first as u64);
                t.append(" and ");
                push_decimal(&mut t, *second as u64);
                t.append(" slots");
            },
            BuildErrorKind::DuplicateColumn { component } => {
                t = String::from_str(component);
                t.append(" already exists");
            },
            BuildErrorKind::InsertOutOfRange { component, id, len } => {
                t = String::from_str(component);
                t.append(" value for id ");
                push_decimal(&mut t, *id as u64);
                t.append(" but registry has ");
                push_decimal(&mut t, *len as u64);
                t.append(" entries");
            },
            BuildErrorKind::CapExceeded { len, cap } => {
                t = String::from_str("registry has ");
                push_decimal(&mut t, *len as u64);
                t.append(" entries but cap is ");
                push_decimal(&mut t, *cap as u64);
            },
            BuildErrorKind::DuplicateProperty { entry, property } => {
                t = String::from_str(entry.as_str());
                t.append(" has duplicate property ");
                t.append(property);
            },
            BuildErrorKind::TooManyStates { entry } => {
                t = String::from_str(entry.as_str());
                t.append(" state count overflows u32");
            },
            BuildErrorKind::TooManyStatesTotal { entry } => {
                t = String::from_str("total state count overflows u32 at ");
                t.append(entry.as_str());
            },
        }
        t
    }
}

impl BuildError<Name> {
    /// The message this error is shown with: the number of problems, then
    /// each problem, separated by `; `.
    pub fn to_string(&self) -> (r: String)
        ensures
            r@ == build_error_message(self@),
    {
        let n = self.errors.len();
        let mut t = String::new();
        push_decimal(&mut t, n as u64);
        if n == 1 {
            t.append(" build error:");
        } else {
            t.append(" build errors:");
        }
        let ghost head = t@;
        let ghost all = self@;
        let mut i: usize = 0;
        while i < n
            invariant
                n == self.errors@.len(),
                all == self@,
                all.len() == n,
                0 <= i <= n,
                t@ == head + kinds_message(all.take(i as int)),
            decreases n - i,
        {
            if i == 0 {
                t.append(" ");
            } else {
                t.append("; ");
            }
            let m = self.errors[i].to_string();
            t.append(m.as_str());
            proof {
                let pre = all.take(i as int + 1);
                assert(pre.drop_last() =~= all.take(i as int));
                assert(pre.last() == all[i as int]);
                assert(all[i as int] == self.errors@[i as int]@);
            }
            i = i + 1;
        }
        proof {
            assert(all.take(n as int) =~= all);
        }
        t
    }
}

} // verus!
