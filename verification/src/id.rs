//! Typed numeric identifiers.
use core::marker::PhantomData;
use vstd::prelude::*;
use vstd::std_specs::cmp::PartialEqSpecImpl;
use vstd::std_specs::cmp::PartialOrdSpecImpl;

verus! {

/// A `u32` identifier tagged with the id space `P` it lives in and the kind
/// `K` of registry it indexes.
#[derive(Debug)]
pub struct RawId<P, K>(u32, PhantomData<(P, K)>);

/// An identifier whose kind has been forgotten.
pub type AnyRawId<P> = RawId<P, Erased>;

/// Space of registry entries.
#[derive(Debug)]
pub struct EntrySpace {
    _never: (),
}

/// Space of block states.
#[derive(Debug)]
pub struct StateSpace {
    _never: (),
}

/// Space of property keys.
#[derive(Debug)]
pub struct PropertySpace {
    _never: (),
}

/// Space of property values.
#[derive(Debug)]
pub struct ValueSpace {
    _never: (),
}

/// Space of facet (column) keys.
#[derive(Debug)]
pub struct FacetSpace {
    _never: (),
}

/// Space of registry kinds.
#[derive(Debug)]
pub struct KindSpace {
    _never: (),
}

/// Marker for an identifier whose kind is not tracked.
#[derive(Debug)]
pub struct Erased {
    _never: (),
}

/// A label for an identifier space.
pub trait IdSpace {
    const LABEL: &'static str;
}

impl IdSpace for EntrySpace {
    const LABEL: &'static str = "EntryId";
}

impl IdSpace for StateSpace {
    const LABEL: &'static str = "StateId";
}

pub type EntryId<K> = RawId<EntrySpace, K>;

pub type StateId<K> = RawId<StateSpace, K>;

pub type AnyEntryId = AnyRawId<EntrySpace>;

pub type AnyStateId = AnyRawId<StateSpace>;

/// The entry identifier of a registry of kind `K`.
pub type Id<K> = EntryId<K>;

impl<P, K> View for RawId<P, K> {
    type V = u32;

    closed spec fn view(&self) -> u32 {
        self.0
    }
}

/// Two identifiers with the same number are the same identifier.
pub broadcast proof fn lemma_raw_id_view_injective<P, K>(a: RawId<P, K>, b: RawId<P, K>)
    ensures
        #[trigger] a@ == #[trigger] b@ <==> a == b,
{
}

impl<P> AnyRawId<P> {
    /// Gives the identifier back its kind; the number is unchanged.
    pub fn into_typed<K>(self) -> (r: RawId<P, K>)
        ensures
            r@ == self@,
    {
        RawId::from_raw(self.raw())
    }
}

impl<P, K> RawId<P, K> {
    /// Forgets the kind; the number is unchanged.
    pub fn erase(self) -> (r: AnyRawId<P>)
        ensures
            r@ == self@,
    {
        AnyRawId::from_raw(self.raw())
    }

    pub fn from_raw(raw: u32) -> (r: Self)
        ensures
            r@ == raw,
    {
        RawId(raw, PhantomData)
    }

    pub fn raw(self) -> (r: u32)
        ensures
            r == self@,
    {
        self.0
    }

    pub fn index(self) -> (r: usize)
        ensures
            r == self@,
    {
        self.0 as usize
    }

    /// The following identifier, or `None` when the number would overflow.
    pub fn next(self) -> (r: Option<Self>)
        ensures
            self@ < u32::MAX ==> (r matches Some(n) && n@ == self@ + 1),
            self@ == u32::MAX ==> r is None,
    {
        match self.raw().checked_add(1) {
            Some(x) => Some(Self::from_raw(x)),
            None => None,
        }
    }

    /// The preceding identifier, or `None` for zero.
    pub fn prev(self) -> (r: Option<Self>)
        ensures
            self@ > 0 ==> (r matches Some(n) && n@ == self@ - 1),
            self@ == 0 ==> r is None,
    {
        match self.raw().checked_sub(1) {
            Some(x) => Some(Self::from_raw(x)),
            None => None,
        }
    }
}

impl<P, K> Clone for RawId<P, K> {
    fn clone(&self) -> (r: Self)
        ensures
            r == *self,
    {
        RawId(self.0, PhantomData)
    }
}

impl<P, K> Copy for RawId<P, K> {
}

impl<P, K> PartialEq for RawId<P, K> {
    fn eq(&self, other: &Self) -> (r: bool) {
        self.0 == other.0
    }
}

impl<P, K> PartialEqSpecImpl for RawId<P, K> {
    open spec fn obeys_eq_spec() -> bool {
        true
    }

    open spec fn eq_spec(&self, other: &Self) -> bool {
        self@ == other@
    }
}

impl<P, K> Eq for RawId<P, K> {
}

impl<P, K> PartialOrd for RawId<P, K> {
    fn partial_cmp(&self, other: &Self) -> (r: Option<core::cmp::Ordering>) {
        if self.0 < other.0 {
            Some(core::cmp::Ordering::Less)
        } else if self.0 == other.0 {
            Some(core::cmp::Ordering::Equal)
        } else {
            Some(core::cmp::Ordering::Greater)
        }
    }
}

impl<P, K> PartialOrdSpecImpl for RawId<P, K> {
    open spec fn obeys_partial_cmp_spec() -> bool {
        true
    }

    open spec fn partial_cmp_spec(&self, other: &Self) -> Option<core::cmp::Ordering> {
        if self@ < other@ {
            Some(core::cmp::Ordering::Less)
        } else if self@ == other@ {
            Some(core::cmp::Ordering::Equal)
        } else {
            Some(core::cmp::Ordering::Greater)
        }
    }
}

} // verus!
