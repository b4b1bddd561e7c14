//! Facets: per-entry components stored in columns.
use core::marker::PhantomData;
use vstd::prelude::*;
use crate::id::{Id, RawId};
use crate::registry::column::laid_out;

pub mod keyed;
pub mod view;

pub use view::{ColumnRegistryView, ColumnView};

verus! {

/// How a facet's column is stored, and what a registry requires of it.
pub enum Storage<C> {
    /// Only entries that were given a value have one.
    Sparse,
    /// Every entry has a value; entries that were given none get this one.
    Dense(C),
    /// Every entry must be given exactly one value.
    Required,
}

/// The storage kind of a facet, without its fill value.
#[derive(PartialEq, Eq, Clone, Copy, Debug)]
pub enum StorageKind {
    Sparse,
    Dense,
    Required,
}

/// An ECS-like component attached to registry entries.
pub trait Facet: Sized + Send + Sync + 'static {
    /// A label for the component, used in error reports.
    const NAME: &'static str;

    const STORAGE: Storage<Self> = Storage::Sparse;
}

/// The storage kind that `C` declares.
pub open spec fn kind_of<C>(s: Storage<C>) -> StorageKind {
    match s {
        Storage::Sparse => StorageKind::Sparse,
        Storage::Dense(_) => StorageKind::Dense,
        Storage::Required => StorageKind::Required,
    }
}

/// The storage kind of facet `C`.
pub fn storage_kind<C: Facet>() -> (r: StorageKind)
    ensures
        r == kind_of(C::STORAGE),
{
    match C::STORAGE {
        Storage::Sparse => StorageKind::Sparse,
        Storage::Dense(_) => StorageKind::Dense,
        Storage::Required => StorageKind::Required,
    }
}

/// The fill value of a dense storage.
pub open spec fn fill_of<C>(s: Storage<C>) -> Option<C> {
    match s {
        Storage::Dense(v) => Some(v),
        _ => None,
    }
}

/// The value that a dense facet gives entries without one of their own.
pub fn fill_value<C: Facet>() -> (r: Option<C>)
    ensures
        r == fill_of(C::STORAGE),
{
    match C::STORAGE {
        Storage::Dense(v) => Some(v),
        _ => None,
    }
}

enum Repr<C> {
    Dense(Vec<C>),
    Sparse { ids: Vec<u32>, values: Vec<C> },
}

/// The values of one facet, indexed by entry id.
pub struct Column<K, C: Facet> {
    repr: Repr<C>,
    /// For a column laid out from staged values: those values and, for each
    /// entry, the position of its own value among them.
    placed: Ghost<Option<(Seq<C>, Seq<Option<usize>>)>>,
    _k: PhantomData<K>,
}

/// Ids strictly increase.
pub open spec fn strictly_increasing(s: Seq<u32>) -> bool {
    forall|i: int, j: int| 0 <= i < j < s.len() ==> s[i] < s[j]
}

impl<K, C: Facet> Column<K, C> {
    #[verifier::type_invariant]
    spec fn inv(self) -> bool {
        &&& match self.repr {
            Repr::Dense(values) => values@.len() <= u32::MAX + 1,
            Repr::Sparse { ids, values } => ids@.len() == values@.len() && strictly_increasing(
                ids@,
            ),
        }
        &&& self.placed@ matches Some(p) ==> forall|id: u32|
            #[trigger] self.spec_get(id) == laid_out(p.0, p.1, C::STORAGE, id as int)
    }

    /// For a column laid out from staged values, the position among them of
    /// each entry's own value.
    pub closed spec fn placement(&self) -> Option<Seq<Option<usize>>> {
        match self.placed@ {
            Some(p) => Some(p.1),
            None => None,
        }
    }

    /// For a column laid out from staged values, those values.
    pub closed spec fn source(&self) -> Option<Seq<C>> {
        match self.placed@ {
            Some(p) => Some(p.0),
            None => None,
        }
    }

    /// The same column, recorded as laid out by `layout` from `source`, which
    /// its values must match.
    pub(crate) fn placed_by(self, source: Ghost<Seq<C>>, layout: Ghost<Seq<Option<usize>>>) -> (r: Self)
        requires
            forall|id: u32| #[trigger] self.spec_get(id) == laid_out(source@, layout@, C::STORAGE, id as int),
        ensures
            r.ids() == self.ids(),
            r.values() == self.values(),
            r.is_dense() == self.is_dense(),
            r.placement() == Some(layout@),
            r.source() == Some(source@),
            forall|id: u32| #[trigger] r.spec_get(id) == self.spec_get(id),
    {
        proof {
            use_type_invariant(&self);
        }
        let ghost old_self = self;
        let Column { repr, placed: _, _k } = self;
        let ghost cand = Column::<K, C> { repr, placed: Ghost(Some((source@, layout@))), _k };
        proof {
            assert(cand.ids() == old_self.ids());
            assert(cand.values() == old_self.values());
            assert forall|id: u32| #[trigger] cand.spec_get(id) == laid_out(source@, layout@, C::STORAGE, id as int) by {
                assert(cand.spec_get(id) == old_self.spec_get(id));
            }
        }
        Column { repr, placed: Ghost(Some((source@, layout@))), _k }
    }

    /// The entry ids that have a value, in increasing order.
    pub closed spec fn ids(&self) -> Seq<u32> {
        match self.repr {
            Repr::Dense(values) => Seq::new(values@.len(), |i: int| i as u32),
            Repr::Sparse { ids, .. } => ids@,
        }
    }

    /// The values, in the order of `ids`.
    pub closed spec fn values(&self) -> Seq<C> {
        match self.repr {
            Repr::Dense(values) => values@,
            Repr::Sparse { values, .. } => values@,
        }
    }

    pub closed spec fn is_dense(&self) -> bool {
        self.repr is Dense
    }

    /// The value that entry `id` has, if any.
    pub open spec fn spec_get(&self, id: u32) -> Option<C> {
        if exists|j: int| 0 <= j < self.ids().len() && self.ids()[j] == id {
            let j = choose|j: int| 0 <= j < self.ids().len() && self.ids()[j] == id;
            Some(self.values()[j])
        } else {
            None
        }
    }

    /// A column holding one value per entry, in id order.
    pub fn dense(values: Vec<C>) -> (r: Self)
        requires
            values@.len() <= u32::MAX + 1,
        ensures
            r.is_dense(),
            r.values() == values@,
            r.ids() == Seq::new(values@.len(), |i: int| i as u32),
    {
        Column { repr: Repr::Dense(values), placed: Ghost(None), _k: PhantomData }
    }

    /// A column holding `values[j]` for entry `ids[j]`.
    pub fn sparse(ids: Vec<u32>, values: Vec<C>) -> (r: Self)
        requires
            ids@.len() == values@.len(),
            strictly_increasing(ids@),
        ensures
            !r.is_dense(),
            r.ids() == ids@,
            r.values() == values@,
    {
        Column { repr: Repr::Sparse { ids, values }, placed: Ghost(None), _k: PhantomData }
    }

    /// The value of entry `id`, if it has one.
    pub fn get(&self, id: Id<K>) -> (r: Option<&C>)
        ensures
            r == match self.spec_get(id@) {
                Some(v) => Some(&v),
                None => None::<&C>,
            },
            self.placement() matches Some(l) ==> self.spec_get(id@) == laid_out(
                self.source()->0,
                l,
                C::STORAGE,
                id@ as int,
            ),
    {
        proof {
            use_type_invariant(self);
        }
        match &self.repr {
            Repr::Dense(values) => {
                let i = id.index();
                if i < values.len() {
                    proof {
                        assert(self.ids()[i as int] == id@);
                        assert forall|j: int|
                            0 <= j < self.ids().len() && self.ids()[j] == id@ implies j == i by {}
                    }
                    Some(&values[i])
                } else {
                    proof {
                        assert forall|j: int| 0 <= j < self.ids().len() implies self.ids()[j] != id@ by {}
                    }
                    None
                }
            },
            Repr::Sparse { ids, values } => {
                let raw = id.raw();
                let mut lo: usize = 0;
                let mut hi: usize = ids.len();
                while lo < hi
                    invariant
                        0 <= lo <= hi <= ids@.len(),
                        ids@ == self.ids(),
                        values@ == self.values(),
                        ids@.len() == values@.len(),
                        strictly_increasing(ids@),
                        raw == id@,
                        forall|j: int| 0 <= j < lo ==> ids@[j] < raw,
                        forall|j: int| hi <= j < ids@.len() ==> ids@[j] > raw,
                        self.placement() matches Some(l) ==> self.spec_get(id@) == laid_out(
                            self.source()->0,
                            l,
                            C::STORAGE,
                            id@ as int,
                        ),
                    decreases hi - lo,
                {
                    let mid = lo + (hi - lo) / 2;
                    if ids[mid] < raw {
                        lo = mid + 1;
                    } else if ids[mid] > raw {
                        hi = mid;
                    } else {
                        proof {
                            assert(self.ids()[mid as int] == id@);
                            assert forall|j: int|
                                0 <= j < self.ids().len() && self.ids()[j] == id@ implies j == mid by {
                                if j < mid {
                                    assert(ids@[j] < ids@[mid as int]);
                                } else if j > mid {
                                    assert(ids@[mid as int] < ids@[j]);
                                }
                            }
                        }
                        return Some(&values[mid]);
                    }
                }
                None
            },
        }
    }

    /// The values in id order, when the column is dense.
    pub fn as_slice(&self) -> (r: Option<&[C]>)
        ensures
            self.is_dense() ==> (r matches Some(s) && s@ == self.values()),
            !self.is_dense() ==> r is None,
    {
        match &self.repr {
            Repr::Dense(values) => Some(values.as_slice()),
            Repr::Sparse { .. } => None,
        }
    }

    /// Number of values held.
    pub fn len(&self) -> (r: usize)
        ensures
            r == self.values().len(),
    {
        match &self.repr {
            Repr::Dense(values) => values.len(),
            Repr::Sparse { values, .. } => values.len(),
        }
    }

    pub fn is_empty(&self) -> (r: bool)
        ensures
            r == (self.values().len() == 0),
    {
        self.len() == 0
    }

    /// An iterator over `(id, value)` pairs in id order.
    pub fn iter(&self) -> (r: ColumnIter<'_, K, C>)
        ensures
            r.column == self,
            r.pos == 0,
    {
        ColumnIter { column: self, pos: 0 }
    }

    /// The `j`-th `(id, value)` pair in id order.
    pub fn entry_at(&self, j: usize) -> (r: Option<(Id<K>, &C)>)
        ensures
            j < self.values().len() ==> (r matches Some(p) && p.0@ == self.ids()[j as int] && *p.1
                == self.values()[j as int]),
            j >= self.values().len() ==> r is None,
    {
        proof {
            use_type_invariant(self);
        }
        match &self.repr {
            Repr::Dense(values) => {
                if j < values.len() {
                    Some((RawId::from_raw(j as u32), &values[j]))
                } else {
                    None
                }
            },
            Repr::Sparse { ids, values } => {
                if j < values.len() {
                    Some((RawId::from_raw(ids[j]), &values[j]))
                } else {
                    None
                }
            },
        }
    }
}

/// Walks a column's `(id, value)` pairs in id order.
pub struct ColumnIter<'a, K, C: Facet> {
    pub column: &'a Column<K, C>,
    pub pos: usize,
}

impl<'a, K, C: Facet> ColumnIter<'a, K, C> {
    /// The next pair, or `None` after the last.
    pub fn next(&mut self) -> (r: Option<(Id<K>, &'a C)>)
        ensures
            final(self).column == old(self).column,
            old(self).pos < old(self).column.values().len() ==> {
                &&& r matches Some(p)
                &&& p.0@ == old(self).column.ids()[old(self).pos as int]
                &&& *p.1 == old(self).column.values()[old(self).pos as int]
                &&& final(self).pos == old(self).pos + 1
            },
            old(self).pos >= old(self).column.values().len() ==> r is None && final(self).pos
                == old(self).pos,
    {
        if self.pos < self.column.len() {
            let r = self.column.entry_at(self.pos);
            self.pos = self.pos + 1;
            r
        } else {
            None
        }
    }
}

impl<K, C: Facet> core::ops::Index<Id<K>> for Column<K, C> {
    type Output = C;

    fn index(&self, id: Id<K>) -> (r: &C)
        ensures
            self.spec_get(id@) == Some(*r),
    {
        match self.get(id) {
            Some(v) => v,
            None => {
                proof {
                    assert(false);
                }
                self.get(id).unwrap()
            },
        }
    }
}

impl<K, C: Facet> vstd::std_specs::core::IndexSpecImpl<Id<K>> for Column<K, C> {
    open spec fn index_req(&self, index: &Id<K>) -> bool {
        self.spec_get(index@) is Some
    }
}

} // verus!
