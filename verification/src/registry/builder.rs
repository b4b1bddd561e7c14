//! Building a registry: creating entries, attaching facets, declaring
//! properties and pinning ids.
use core::any::TypeId;
use core::marker::PhantomData;
use vstd::prelude::*;
use crate::counting::is_perm;
use crate::registry::column::{column_from_layout, layout_injective};
use crate::erased::{AnyBox, same_type, type_key};
use crate::facet::{Facet, StorageKind, kind_of, storage_kind};
use crate::id::Id;
use crate::name::Name;
use crate::order::{Rank, compare_texts, lemma_lt_transitive, lemma_lt_trichotomy, text_lt};
use crate::registry::error::{BuildError, BuildErrorKind, RegistryError};
use crate::registry::plan::{
    BuilderView, StageView, count_below, sorted_by_name, lemma_model_wf, lemma_perm_of, lemma_pin_plan,
    lemma_prop_plan_counts, lemma_state_errors_empty, stages_errors, too_many_states, last_layout, staged_ids,
};
use crate::registry::steps::{
    assign_ids, check_values, stage_ids, compute_bases, errs_view, gather_props, invert_order, names_by_final_id,
    names_view, old_indices, resolve_pins, states_by_id, decls_view,
};
use crate::registry::table::{Perm, Registry, RegistryInit, RegistryModel};
use crate::state::{Property, PropertyDeclaration, PropertySlot};

verus! {

/// Turns staged values into a typed column once ids are final.
pub(crate) trait Assemble: Send + Sync {
    /// `values` holds the staged values in staging order; `layout[id]` is
    /// the staged value of entry `id`, if any. Gives back the column and the
    /// layout it placed the values by.
    fn assemble(&self, values: AnyBox, layout: &Vec<Option<usize>>) -> (r: (AnyBox, Ghost<Seq<Option<usize>>>))
        requires
            layout@.len() <= u32::MAX + 1,
            layout_injective(layout@),
        ensures
            r.1@ == layout@,
    ;
}

/// The values staged for one facet type.
pub(crate) struct Stage {
    pub(crate) key: TypeId,
    pub(crate) component: &'static str,
    pub(crate) storage: StorageKind,
    /// Provisional index of the entry of each staged value.
    pub(crate) owners: Vec<u32>,
    /// The staged values, a `Vec<C>` in staging order.
    pub(crate) values: AnyBox,
    pub(crate) finisher: Finisher,
}

/// What turns one stage's values into a column: a `Box<dyn Assemble>`.
/// Verus cannot reason about sequences of trait objects, so the box is kept
/// behind a struct whose body it does not read.
#[verifier::external_body]
pub(crate) struct Finisher {
    f: Box<dyn Assemble>,
}

impl Finisher {
    /// Wraps the trait object; nothing is claimed of it.
    #[verifier::external_body]
    pub(crate) fn new(f: Box<dyn Assemble>) -> Finisher {
        Finisher { f }
    }

    /// The trait object, borrowed.
    #[verifier::external_body]
    pub(crate) fn get(&self) -> &dyn Assemble {
        &*self.f
    }
}

impl Stage {
    pub(crate) open spec fn view(&self) -> StageView {
        StageView { key: self.key, component: self.component, storage: self.storage, owners: self.owners@ }
    }
}

/// What a registry builder holds.
pub(crate) struct BuilderData {
    pub(crate) names: Vec<Name>,
    pub(crate) order: Vec<u32>,
    pub(crate) stages: Vec<Stage>,
    pub(crate) pins: Vec<(u32, u32)>,
    pub(crate) properties: Vec<(u32, PropertyDeclaration)>,
    pub(crate) cap: Option<u32>,
}

/// Collects entries, facet values, pins and property declarations, then
/// builds a `Registry` in which ids follow name order.
pub struct RegistryBuilder<K, S = Name> {
    pub(crate) data: BuilderData,
    _k: PhantomData<(K, S)>,
}

impl<K, S> RegistryBuilder<K, S> {
    /// Entries stay sorted by name, indices, pins, properties and staged
    /// values name existing entries, and facet keys are distinct.
    #[verifier::type_invariant]
    spec fn builder_inv(self) -> bool {
        self.data@.wf()
    }
}

/// A place in the builder for one stable id, which may or may not be taken.
pub struct Entry<'a, K, S = Name> {
    pub builder: &'a mut RegistryBuilder<K, S>,
    pub stable_id: S,
    /// Provisional index of the entry with this stable id, if there is one.
    pub index: Option<u32>,
}

/// An entry of the builder, to which facets, properties and pins are added.
pub struct EntryRef<'a, K, S = Name> {
    pub builder: &'a mut RegistryBuilder<K, S>,
    /// Provisional index of the entry.
    pub index: u32,
}


impl View for BuilderData {
    type V = BuilderView;

    closed spec fn view(&self) -> BuilderView {
        BuilderView {
            names: self.names@.map_values(|n: Name| n@),
            order: self.order@,
            pins: self.pins@,
            props: self.properties@,
            stages: self.stages@.map_values(|s: Stage| s.view()),
            cap: self.cap,
        }
    }
}

impl<K> View for RegistryBuilder<K, Name> {
    type V = BuilderView;

    closed spec fn view(&self) -> BuilderView {
        self.data@
    }
}

impl<K> RegistryBuilder<K, Name> {
    /// The builder's contents, which do not depend on the kind.
    pub(crate) fn into_data(self) -> (d: BuilderData)
        ensures
            d@ == self@,
            d@.wf(),
    {
        proof {
            use_type_invariant(&self);
        }
        self.data
    }

    /// A builder of kind `K` with these contents.
    pub(crate) fn from_data(data: BuilderData) -> (r: Self)
        requires
            data@.wf(),
        ensures
            r@ == data@,
    {
        RegistryBuilder { data, _k: PhantomData }
    }
}

/// The position of `name` among the entries in name order: `Ok` with its
/// position when present, `Err` with the position it would take otherwise.
pub open spec fn lookup_ok(b: BuilderView, name: Seq<char>, r: Result<usize, usize>) -> bool {
    match r {
        Ok(p) => p < b.order.len() && b.names[b.order[p as int] as int] == name,
        Err(p) => {
            &&& p <= b.order.len()
            &&& !b.names.contains(name)
            &&& forall|k: int| 0 <= k < p ==> text_lt(#[trigger] b.names[b.order[k] as int], name)
            &&& forall|k: int|
                p <= k < b.order.len() ==> text_lt(name, #[trigger] b.names[b.order[k] as int])
        },
    }
}

pub proof fn lemma_count_below_split(names: Seq<Seq<char>>, order: Seq<u32>, name: Seq<char>, p: int, k: int)
    requires
        0 <= p <= order.len(),
        0 <= k <= order.len(),
        forall|j: int| 0 <= j < p ==> text_lt(#[trigger] names[order[j] as int], name),
        forall|j: int| p <= j < order.len() ==> !text_lt(#[trigger] names[order[j] as int], name),
    ensures
        count_below(names, order, name, k) == if k <= p {
            k
        } else {
            p
        },
    decreases k,
{
    if k > 0 {
        lemma_count_below_split(names, order, name, p, k - 1);
    }
}

impl BuilderData {
    /// No entries, no cap.
    pub(crate) fn empty() -> (r: Self)
        ensures
            r@.wf(),
            r@.names == Seq::<Seq<char>>::empty(),
            r@.pins == Seq::<(u32, u32)>::empty(),
            r@.props == Seq::<(u32, PropertyDeclaration)>::empty(),
            r@.stages == Seq::<StageView>::empty(),
            r@.cap is None,
    {
        let r = BuilderData {
            names: Vec::new(),
            order: Vec::new(),
            stages: Vec::new(),
            pins: Vec::new(),
            properties: Vec::new(),
            cap: None,
        };
        proof {
            assert(r@.names =~= Seq::<Seq<char>>::empty());
            assert(r@.stages =~= Seq::<StageView>::empty());
        }
        r
    }

    /// Finds `name` among the entries, by binary search in name order.
    pub(crate) fn lookup(&self, name: &Name) -> (r: Result<usize, usize>)
        requires
            self@.wf(),
        ensures
            lookup_ok(self@, name@, r),
    {
        let key = name.chars();
        let n = self.order.len();
        let mut lo: usize = 0;
        let mut hi: usize = n;
        while lo < hi
            invariant
                0 <= lo <= hi <= n,
                n == self.order@.len(),
                self@.wf(),
                key@ == name@,
                forall|k: int| 0 <= k < lo ==> text_lt(#[trigger] self@.names[self@.order[k] as int], name@),
                forall|k: int| hi <= k < n ==> text_lt(name@, #[trigger] self@.names[self@.order[k] as int]),
            decreases hi - lo,
        {
            let mid = lo + (hi - lo) / 2;
            let o = self.order[mid];
            let probe = self.names[o as usize].chars();
            proof {
                assert(self@.order[mid as int] < self@.n());
                assert(self@.names[o as int] == self.names@[o as int]@);
            }
            match compare_texts(probe, key) {
                Rank::Before => {
                    proof {
                        assert forall|k: int| 0 <= k < mid + 1 implies text_lt(
                            #[trigger] self@.names[self@.order[k] as int],
                            name@,
                        ) by {
                            if k < mid {
                                assert(text_lt(self@.names[self@.order[k] as int], self@.names[self@.order[mid as int] as int]));
                                lemma_lt_transitive(self@.names[self@.order[k] as int], probe@, name@);
                            }
                        }
                    }
                    lo = mid + 1;
                },
                Rank::After => {
                    proof {
                        lemma_lt_trichotomy(probe@, name@);
                        assert forall|k: int| mid <= k < n implies text_lt(
                            name@,
                            #[trigger] self@.names[self@.order[k] as int],
                        ) by {
                            if k > mid {
                                assert(text_lt(self@.names[self@.order[mid as int] as int], self@.names[self@.order[k] as int]));
                                lemma_lt_transitive(name@, probe@, self@.names[self@.order[k] as int]);
                            }
                        }
                    }
                    hi = mid;
                },
                Rank::Same => {
                    return Ok(mid);
                },
            }
        }
        proof {
            assert forall|o: int| 0 <= o < self@.n() implies self@.names[o] != name@ by {
                crate::counting::lemma_perm_onto(self@.order, self@.n(), o as u32);
                let k = choose|k: int| 0 <= k < self@.order.len() && self@.order[k] == o as u32;
                if k < lo {
                    lemma_lt_trichotomy(self@.names[o], name@);
                } else {
                    lemma_lt_trichotomy(name@, self@.names[o]);
                }
            }
        }
        Err(lo)
    }

    /// Adds a new entry; the name must be absent.
    pub(crate) fn insert_new(&mut self, stable_id: Name) -> (index: u32)
        requires
            old(self)@.wf(),
            old(self)@.n() < u32::MAX,
            !old(self)@.has_name(stable_id@),
        ensures
            index == old(self)@.n(),
            final(self)@ == old(self)@.add_name(stable_id@),
            final(self)@.wf(),
    {
        let pos = match self.lookup(&stable_id) {
            Ok(p) => {
                proof {
                    assert(self@.names.contains(stable_id@));
                }
                p
            },
            Err(p) => p,
        };
        let index = self.names.len() as u32;
        let ghost old_view = self@;
        proof {
            assert forall|j: int| pos <= j < old_view.order.len() implies !text_lt(
                #[trigger] old_view.names[old_view.order[j] as int],
                stable_id@,
            ) by {
                lemma_lt_trichotomy(stable_id@, old_view.names[old_view.order[j] as int]);
            }
            lemma_count_below_split(old_view.names, old_view.order, stable_id@, pos as int, old_view.order.len() as int);
        }
        self.order.insert(pos, index);
        self.names.push(stable_id);
        proof {
            let nv = self@;
            assert(nv.names =~= old_view.names.push(stable_id@));
            assert(nv.order =~= old_view.order.insert(pos as int, index));
            assert(nv == old_view.add_name(stable_id@));
            let n = old_view.n();
            assert(is_perm(nv.order, n + 1)) by {
                assert forall|a: int, c: int|
                    0 <= a < nv.order.len() && 0 <= c < nv.order.len() && a != c implies nv.order[a]
                    != nv.order[c] by {
                    if a != pos && c != pos {
                        let a0 = if a < pos { a } else { a - 1 };
                        let c0 = if c < pos { c } else { c - 1 };
                        assert(nv.order[a] == old_view.order[a0]);
                        assert(nv.order[c] == old_view.order[c0]);
                    } else if a == pos {
                        let c0 = if c < pos { c } else { c - 1 };
                        assert(old_view.order[c0] < n);
                    } else {
                        let a0 = if a < pos { a } else { a - 1 };
                        assert(old_view.order[a0] < n);
                    }
                }
            }
            assert(sorted_by_name(nv.names, nv.order)) by {
                assert forall|a: int, c: int|
                    0 <= a < c < nv.order.len() implies text_lt(
                    #[trigger] nv.names[nv.order[a] as int],
                    #[trigger] nv.names[nv.order[c] as int],
                ) by {
                    let a0 = if a < pos { a } else { a - 1 };
                    let c0 = if c < pos { c } else { c - 1 };
                    if a != pos && c != pos {
                        assert(nv.order[a] == old_view.order[a0]);
                        assert(nv.order[c] == old_view.order[c0]);
                        assert(nv.names[nv.order[a] as int] == old_view.names[old_view.order[a0] as int]);
                        assert(nv.names[nv.order[c] as int] == old_view.names[old_view.order[c0] as int]);
                    } else if a == pos {
                        assert(nv.order[c] == old_view.order[c0]);
                        assert(nv.names[nv.order[c] as int] == old_view.names[old_view.order[c0] as int]);
                    } else {
                        assert(nv.order[a] == old_view.order[a0]);
                        assert(nv.names[nv.order[a] as int] == old_view.names[old_view.order[a0] as int]);
                    }
                }
            }
            assert forall|s: int, k: int|
                0 <= s < nv.stages.len() && 0 <= k < nv.stages[s].owners.len() implies #[trigger] nv.stages[s].owners[k]
                < nv.n() by {
                assert(nv.stages[s] == old_view.stages[s]);
            }
        }
        index
    }

    /// Creates a facet stage for `C` if there is none; gives its position.
    pub(crate) fn stage_index<K: Send + Sync + 'static, C: Facet>(&mut self) -> (r: usize)
        ensures
            r <= old(self)@.stages.len(),
            r < final(self)@.stages.len(),
            r < old(self)@.stages.len() ==> final(self)@ == old(self)@,
            r == old(self)@.stages.len() ==> forall|j: int| 0 <= j < r ==> old(self)@.stages[j].key != final(self)@.stages[r as int].key,
            r == old(self)@.stages.len() ==> final(self)@ == (BuilderView {
                stages: old(self)@.stages.push(
                    StageView {
                        key: final(self)@.stages[r as int].key,
                        component: C::NAME,
                        storage: kind_of(C::STORAGE),
                        owners: Seq::empty(),
                    },
                ),
                ..old(self)@
            }),
    {
        let key = type_key::<C>();
        let n = self.stages.len();
        let mut i: usize = 0;
        while i < n
            invariant
                i <= n,
                n == self.stages@.len(),
                self.stages@ == old(self).stages@,
                forall|j: int| 0 <= j < i ==> self.stages@[j].key != key,
            decreases self.stages@.len() - i,
        {
            if same_type(&self.stages[i].key, &key) {
                return i;
            }
            i = i + 1;
        }
        let values = AnyBox::new(Vec::<C>::new());
        let f: Box<dyn Assemble> = Box::new(Assembler::<K, C> { _p: PhantomData });
        let finisher = Finisher::new(f);
        let stage = Stage { key, component: C::NAME, storage: storage_kind::<C>(), owners: Vec::new(), values, finisher };
        let ghost sv = stage.view();
        let ghost stage_val = stage;
        self.stages.push(stage);
        proof {
            assert(self.stages@.len() == i + 1);
            assert(self.stages@[i as int] == stage_val);
            assert forall|j: int| 0 <= j < i implies self.stages@[j] == old(self).stages@[j] by {}
            assert(self@.stages =~= old(self)@.stages.push(sv));
        }
        i
    }

}

impl<K: Send + Sync + 'static> RegistryBuilder<K, Name> {
    /// An empty builder, without a cap.
    pub fn new() -> (r: Self)
        ensures
            r@.wf(),
            r@.names == Seq::<Seq<char>>::empty(),
            r@.pins == Seq::<(u32, u32)>::empty(),
            r@.props == Seq::<(u32, PropertyDeclaration)>::empty(),
            r@.stages == Seq::<StageView>::empty(),
            r@.cap is None,
    {
        RegistryBuilder { data: BuilderData::empty(), _k: PhantomData }
    }

    /// Sets the largest number of entries that `build` accepts.
    pub fn with_cap(self, cap: u32) -> (r: Self)
        ensures
            r@ == (BuilderView { cap: Some(cap), ..self@ }),
    {
        proof {
            use_type_invariant(&self);
        }
        let RegistryBuilder { mut data, _k } = self;
        data.cap = Some(cap);
        RegistryBuilder { data, _k }
    }

    /// The builder's contents, leaving it empty.
    fn take_data(&mut self) -> (d: BuilderData)
        ensures
            d@ == old(self)@,
            d@.wf(),
    {
        proof {
            use_type_invariant(&*self);
        }
        let mut d = BuilderData::empty();
        core::mem::swap(&mut d, &mut self.data);
        d
    }

    /// Finds `name` among the entries, by binary search in name order.
    pub(crate) fn lookup(&self, name: &Name) -> (r: Result<usize, usize>)
        ensures
            self@.wf(),
            lookup_ok(self@, name@, r),
    {
        proof {
            use_type_invariant(self);
        }
        self.data.lookup(name)
    }

    /// Whether an entry has this stable id.
    pub fn contains(&self, stable_id: &Name) -> (r: bool)
        ensures
            r == self@.has_name(stable_id@),
    {
        match self.lookup(stable_id) {
            Ok(p) => {
                proof {
                    let o = self@.order[p as int];
                    assert(self@.names[o as int] == stable_id@);
                }
                true
            },
            Err(_) => false,
        }
    }

    /// The place for `stable_id`, taken or not.
    pub fn entry(&mut self, stable_id: Name) -> (r: Entry<'_, K, Name>)
        ensures
            r.builder@ == old(self)@,
            r.stable_id@ == stable_id@,
            *final(r.builder) == *final(self),
            match r.index {
                Some(i) => i < old(self)@.n() && old(self)@.names[i as int] == stable_id@,
                None => !old(self)@.has_name(stable_id@),
            },
    {
        let index = match self.lookup(&stable_id) {
            Ok(p) => Some(self.data.order[p]),
            Err(_) => None,
        };
        Entry { builder: self, stable_id, index }
    }

    /// Creates an entry named `stable_id`, refusing a name already present.
    pub fn create(&mut self, stable_id: Name) -> (r: Result<EntryRef<'_, K, Name>, RegistryError<Name>>)
        requires
            old(self)@.n() < u32::MAX,
        ensures
            match r {
                Ok(e) => {
                    &&& !old(self)@.has_name(stable_id@)
                    &&& e.index == old(self)@.n()
                    &&& e.builder@ == old(self)@.add_name(stable_id@)
                    &&& *final(e.builder) == *final(self)
                },
                Err(e) => {
                    &&& old(self)@.has_name(stable_id@)
                    &&& e@ == RegistryError::DuplicateStableId(stable_id@)
                    &&& final(self)@ == old(self)@
                },
            },
    {
        self.entry(stable_id).create()
    }

    /// Adds a new entry; the name must be absent.
    fn insert_new(&mut self, stable_id: Name) -> (index: u32)
        requires
            old(self)@.n() < u32::MAX,
            !old(self)@.has_name(stable_id@),
        ensures
            index == old(self)@.n(),
            final(self)@ == old(self)@.add_name(stable_id@),
            final(self)@.wf(),
    {
        let mut d = self.take_data();
        let i = d.insert_new(stable_id);
        self.data = d;
        i
    }

    /// Creates a facet stage for `C` if there is none; gives its position.
    fn stage_index<C: Facet>(&mut self) -> (r: usize)
        ensures
            final(self)@.wf(),
            r <= old(self)@.stages.len(),
            r < final(self)@.stages.len(),
            r < old(self)@.stages.len() ==> final(self)@ == old(self)@,
            r == old(self)@.stages.len() ==> forall|j: int| 0 <= j < r ==> old(self)@.stages[j].key != final(self)@.stages[r as int].key,
            r == old(self)@.stages.len() ==> final(self)@ == (BuilderView {
                stages: old(self)@.stages.push(
                    StageView {
                        key: final(self)@.stages[r as int].key,
                        component: C::NAME,
                        storage: kind_of(C::STORAGE),
                        owners: Seq::empty(),
                    },
                ),
                ..old(self)@
            }),
    {
        let mut d = self.take_data();
        let i = d.stage_index::<K, C>();
        self.data = d;
        i
    }

    /// Declares a property on entry `index`.
    fn add_property(&mut self, index: u32, decl: PropertyDeclaration)
        requires
            index < old(self)@.n(),
            decl.count > 0,
        ensures
            final(self)@ == (BuilderView { props: old(self)@.props.push((index, decl)), ..old(self)@ }),
    {
        let mut d = self.take_data();
        d.properties.push((index, decl));
        proof {
            assert(d@.props =~= old(self)@.props.push((index, decl)));
        }
        self.data = d;
    }

    /// Records a pin of entry `index` to slot `slot`.
    fn add_pin(&mut self, index: u32, slot: u32)
        requires
            index < old(self)@.n(),
        ensures
            final(self)@ == (BuilderView { pins: old(self)@.pins.push((index, slot)), ..old(self)@ }),
    {
        let mut d = self.take_data();
        d.pins.push((index, slot));
        proof {
            assert(d@.pins =~= old(self)@.pins.push((index, slot)));
        }
        self.data = d;
    }

    /// Stages `value` for entry `index` in stage `i`.
    fn record_value<C: Facet>(&mut self, i: usize, index: u32, value: C)
        requires
            i < old(self)@.stages.len(),
            index < old(self)@.n(),
        ensures
            final(self)@ == (BuilderView {
                stages: old(self)@.stages.update(
                    i as int,
                    StageView { owners: old(self)@.stages[i as int].owners.push(index), ..old(self)@.stages[i as int] },
                ),
                ..old(self)@
            }),
    {
        let mut d = self.take_data();
        let ghost vs = d.stages@;
        d.stages[i].record(index, value);
        proof {
            let grown = StageView { owners: old(self)@.stages[i as int].owners.push(index), ..old(self)@.stages[i as int] };
            assert(d.stages@.len() == vs.len());
            assert(d.stages@[i as int].view() == grown);
            assert forall|j: int| 0 <= j < vs.len() && j != i implies d.stages@[j] == vs[j] by {}
            assert(d@.stages =~= old(self)@.stages.update(i as int, grown));
            assert forall|s: int, k: int|
                0 <= s < d@.stages.len() && 0 <= k < d@.stages[s].owners.len() implies #[trigger] d@.stages[s].owners[k]
                < d@.n() by {
                if s == i {
                    if k < old(self)@.stages[i as int].owners.len() {
                        assert(d@.stages[s].owners[k] == old(self)@.stages[s].owners[k]);
                    }
                } else {
                    assert(d@.stages[s] == old(self)@.stages[s]);
                }
            }
            assert forall|a: int, b: int|
                0 <= a < b < d@.stages.len() implies #[trigger] d@.stages[a].key != #[trigger] d@.stages[b].key by {
                assert(d@.stages[a].key == old(self)@.stages[a].key);
                assert(d@.stages[b].key == old(self)@.stages[b].key);
            }
        }
        self.data = d;
    }

    /// The entries, as (provisional index, stable id), in name order.
    pub fn iter(&self) -> (r: Vec<(u32, &Name)>)
        ensures
            r@.len() == self@.n(),
            forall|k: int|
                0 <= k < r@.len() ==> (#[trigger] r@[k]).0 == self@.order[k] && r@[k].1@ == self@.names[self@.order[k] as int],
    {
        proof {
            use_type_invariant(self);
        }
        let n = self.data.order.len();
        let mut r: Vec<(u32, &Name)> = Vec::new();
        let mut k: usize = 0;
        while k < n
            invariant
                k <= n,
                n == self@.order.len(),
                self.data@.wf(),
                r@.len() == k,
                forall|x: int|
                    0 <= x < k ==> (#[trigger] r@[x]).0 == self@.order[x] && r@[x].1@ == self@.names[self@.order[x] as int],
            decreases n - k,
        {
            let o = self.data.order[k];
            proof {
                assert(self@.order[k as int] < self@.n());
                assert(self@.names[o as int] == self.data.names@[o as int]@);
            }
            r.push((o, &self.data.names[o as usize]));
            k = k + 1;
        }
        r
    }

    /// Makes sure a column for `C` is built, even if no entry has a value.
    pub fn declare<C: Facet>(&mut self)
        ensures
            final(self)@.wf(),
            final(self)@ == old(self)@ ==> old(self)@.stages.len() > 0,
            final(self)@ != old(self)@ ==> forall|j: int|
                0 <= j < old(self)@.stages.len() ==> old(self)@.stages[j].key != final(self)@.stages.last().key,
            final(self)@ == old(self)@ || final(self)@ == (BuilderView {
                stages: old(self)@.stages.push(
                    StageView {
                        key: final(self)@.stages.last().key,
                        component: C::NAME,
                        storage: kind_of(C::STORAGE),
                        owners: Seq::empty(),
                    },
                ),
                ..old(self)@
            }),
    {
        let i = self.stage_index::<C>();
    }
}

/// `new` is `old` with one value staged for entry `index` in the stage at
/// position `s`: an existing stage gets `index` appended to its owners; at
/// `s == old.len()`, a new stage for `component` is added with `index` as
/// its only owner.
pub open spec fn staged_at(old: Seq<StageView>, new: Seq<StageView>, s: int, index: u32, component: &'static str) -> bool {
    0 <= s <= old.len() && if s < old.len() {
        new == old.update(s, StageView { owners: old[s].owners.push(index), ..old[s] })
    } else {
        &&& new.len() == old.len() + 1
        &&& new.drop_last() == old
        &&& new.last().owners == seq![index]
        &&& new.last().component == component
    }
}

/// `new` is `old` with one value staged for entry `index`, in the stage of
/// the facet (a new one for a facet not seen before).
pub open spec fn stage_grown(old: Seq<StageView>, new: Seq<StageView>, index: u32, component: &'static str) -> bool {
    exists|s: int| #[trigger] staged_at(old, new, s, index, component)
}

impl Stage {
    /// Stages `value` for the entry at provisional index `owner`.
    fn record<C: Facet>(&mut self, owner: u32, value: C)
        ensures
            final(self).view() == (StageView { owners: old(self).view().owners.push(owner), ..old(self).view() }),
    {
        match self.values.downcast_mut::<Vec<C>>() {
            Some(v) => v.push(value),
            None => {},
        }
        self.owners.push(owner);
    }
}

impl<'a, K: Send + Sync + 'static> Entry<'a, K, Name> {
    /// Creates the entry, refusing a stable id that is already taken.
    pub fn create(self) -> (r: Result<EntryRef<'a, K, Name>, RegistryError<Name>>)
        requires
            self.builder@.n() < u32::MAX,
            match self.index {
                Some(i) => i < self.builder@.n() && self.builder@.names[i as int] == self.stable_id@,
                None => !self.builder@.has_name(self.stable_id@),
            },
        ensures
            match r {
                Ok(e) => {
                    &&& self.index is None
                    &&& e.index == old(self.builder)@.n()
                    &&& e.builder@ == old(self.builder)@.add_name(self.stable_id@)
                    &&& *final(e.builder) == *final(self.builder)
                },
                Err(e) => {
                    &&& self.index is Some
                    &&& e@ == RegistryError::DuplicateStableId(self.stable_id@)
                    &&& final(self.builder)@ == old(self.builder)@
                },
            },
    {
        let Entry { builder, stable_id, index } = self;
        match index {
            Some(_) => Err(RegistryError::DuplicateStableId(stable_id)),
            None => {
                let i = builder.insert_new(stable_id);
                Ok(EntryRef { builder, index: i })
            },
        }
    }

    /// The existing entry, or a new one.
    pub fn or_create(self) -> (r: EntryRef<'a, K, Name>)
        requires
            self.builder@.n() < u32::MAX,
            match self.index {
                Some(i) => i < self.builder@.n() && self.builder@.names[i as int] == self.stable_id@,
                None => !self.builder@.has_name(self.stable_id@),
            },
        ensures
            *final(r.builder) == *final(self.builder),
            match self.index {
                Some(i) => r.index == i && r.builder@ == old(self.builder)@,
                None => r.index == old(self.builder)@.n() && r.builder@ == old(self.builder)@.add_name(
                    self.stable_id@,
                ),
            },
    {
        let Entry { builder, stable_id, index } = self;
        match index {
            Some(i) => EntryRef { builder, index: i },
            None => {
                let i = builder.insert_new(stable_id);
                EntryRef { builder, index: i }
            },
        }
    }

    /// The existing entry; or a new one, passed through `f` first.
    pub fn or_init<F: FnOnce(EntryRef<'a, K, Name>) -> EntryRef<'a, K, Name>>(self, f: F) -> (r: EntryRef<'a, K, Name>)
        requires
            self.builder@.n() < u32::MAX,
            match self.index {
                Some(i) => i < self.builder@.n() && self.builder@.names[i as int] == self.stable_id@,
                None => !self.builder@.has_name(self.stable_id@),
            },
            forall|e: EntryRef<'a, K, Name>| call_requires(f, (e,)),
        ensures
            match self.index {
                Some(i) => r.index == i && r.builder@ == old(self.builder)@ && *final(r.builder)
                    == *final(self.builder),
                None => true,
            },
            self.index is None ==> exists|e: EntryRef<'a, K, Name>|
                    {
                        &&& e.index == old(self.builder)@.n()
                        &&& e.builder@ == old(self.builder)@.add_name(self.stable_id@)
                        &&& *final(e.builder) == *final(self.builder)
                        &&& call_ensures(f, (e,), r)
                    },
    {
        match self.index {
            Some(i) => {
                let Entry { builder, .. } = self;
                EntryRef { builder, index: i }
            },
            None => {
                let Entry { builder, stable_id, .. } = self;
                let i = builder.insert_new(stable_id);
                let e = EntryRef { builder, index: i };
                let ghost ge = e;
                let r = f(e);
                proof {
                    assert(call_ensures(f, (ge,), r));
                    assert(ge.index == old(self.builder)@.n());
                    assert(ge.builder@ == old(self.builder)@.add_name(self.stable_id@));
                    assert(*final(ge.builder) == *final(self.builder));
                }
                r
            },
        }
    }

    /// The existing entry; or a new one with facet value `value`.
    pub fn or_with<C: Facet>(self, value: C) -> (r: EntryRef<'a, K, Name>)
        requires
            self.builder@.n() < u32::MAX,
            match self.index {
                Some(i) => i < self.builder@.n() && self.builder@.names[i as int] == self.stable_id@,
                None => !self.builder@.has_name(self.stable_id@),
            },
        ensures
            *final(r.builder) == *final(self.builder),
            match self.index {
                Some(i) => r.index == i && r.builder@ == old(self.builder)@,
                None => {
                    let b = old(self.builder)@.add_name(self.stable_id@);
                    &&& r.index == old(self.builder)@.n()
                    &&& r.builder@ == BuilderView { stages: r.builder@.stages, ..b }
                    &&& stage_grown(b.stages, r.builder@.stages, r.index, C::NAME)
                },
            },
    {
        let Entry { builder, stable_id, index } = self;
        match index {
            Some(i) => EntryRef { builder, index: i },
            None => {
                let i = builder.insert_new(stable_id);
                let e = EntryRef { builder, index: i };
                e.with(value)
            },
        }
    }

    /// The existing entry, if there is one.
    pub fn get(self) -> (r: Option<EntryRef<'a, K, Name>>)
        ensures
            match self.index {
                Some(i) => r matches Some(e) && e.index == i && e.builder@ == old(self.builder)@
                    && *final(e.builder) == *final(self.builder),
                None => r is None && final(self.builder)@ == old(self.builder)@,
            },
    {
        let Entry { builder, index, .. } = self;
        match index {
            Some(i) => Some(EntryRef { builder, index: i }),
            None => None,
        }
    }
}

impl<'a, K: Send + Sync + 'static> EntryRef<'a, K, Name> {
    /// Declares property `P` on this entry.
    pub fn property<P: Property>(self) -> (r: Self)
        requires
            self.index < self.builder@.n(),
            P::COUNT > 0,
        ensures
            r.index == self.index,
            *final(r.builder) == *final(self.builder),
            r.builder@ == (BuilderView {
                props: old(self.builder)@.props.push(
                    (
                        self.index,
                        PropertyDeclaration {
                            id: r.builder@.props.last().1.id,
                            count: P::COUNT,
                            name: P::NAME,
                        },
                    ),
                ),
                ..old(self.builder)@
            }),
    {
        let EntryRef { builder, index } = self;
        let decl = PropertyDeclaration { id: type_key::<P>(), count: P::COUNT, name: P::NAME };
        builder.add_property(index, decl);
        EntryRef { builder, index }
    }

    /// Stages facet value `value` for this entry.
    pub fn with<C: Facet>(self, value: C) -> (r: Self)
        requires
            self.index < self.builder@.n(),
        ensures
            r.index == self.index,
            *final(r.builder) == *final(self.builder),
            r.builder@ == (BuilderView { stages: r.builder@.stages, ..old(self.builder)@ }),
            stage_grown(old(self.builder)@.stages, r.builder@.stages, self.index, C::NAME),
    {
        let EntryRef { builder, index } = self;
        let ghost before = builder@;
        let i = builder.stage_index::<C>();
        let ghost base = builder@.stages;
        builder.record_value(i, index, value);
        proof {
            let nv = builder@;
            let o = before.stages;
            let grown = StageView { owners: base[i as int].owners.push(index), ..base[i as int] };
            assert(nv.stages == base.update(i as int, grown));
            if i < o.len() {
                assert(base == o);
            } else {
                assert(base.drop_last() =~= o);
                assert(nv.stages.drop_last() =~= o);
                assert(nv.stages.last().owners =~= seq![index]);
                assert(nv.stages.last().component == C::NAME);
            }
            assert(staged_at(o, nv.stages, i as int, index, C::NAME));
        }
        EntryRef { builder, index }
    }

    /// Asks for this entry to get id `id`.
    pub fn pin(self, id: Id<K>) -> (r: Self)
        requires
            self.index < self.builder@.n(),
        ensures
            r.index == self.index,
            *final(r.builder) == *final(self.builder),
            r.builder@ == (BuilderView {
                pins: old(self.builder)@.pins.push((self.index, id@)),
                ..old(self.builder)@
            }),
    {
        let EntryRef { builder, index } = self;
        builder.add_pin(index, id.raw());
        EntryRef { builder, index }
    }

    /// Provisional index of the entry; `Perm::id` maps it to the final id.
    pub fn index(&self) -> (r: u32)
        ensures
            r == self.index,
    {
        self.index
    }
}

/// Builds the typed column of facet `C` for registries of kind `K`.
pub(crate) struct Assembler<K, C> {
    pub(crate) _p: PhantomData<(K, C)>,
}

impl<K: Send + Sync + 'static, C: Facet> Assemble for Assembler<K, C> {
    fn assemble(&self, values: AnyBox, layout: &Vec<Option<usize>>) -> (r: (AnyBox, Ghost<Seq<Option<usize>>>)) {
        match values.downcast::<Vec<C>>() {
            Ok(v) => match column_from_layout::<K, C>(v, layout) {
                Some(col) => {
                    let ghost placed = col.placement()->0;
                    (AnyBox::new(col), Ghost(placed))
                },
                None => (AnyBox::new(()), Ghost(layout@)),
            },
            Err(b) => (b, Ghost(layout@)),
        }
    }
}

} // verus!

verus! {

impl<K: Send + Sync + 'static> RegistryBuilder<K, Name> {
    /// Builds the registry, keeping the map from provisional index to id;
    /// fails with every problem found, in order.
    #[verifier::rlimit(50)]
    pub fn build_init(self) -> (r: Result<RegistryInit<K, Name>, BuildError<Name>>)
        ensures
            match r {
                Ok(init) => {
                    &&& self@.errors().len() == 0
                    &&& init.model() == self@.model()
                    &&& init.model().wf()
                    &&& init.map() == self@.perm()
                },
                Err(e) => self@.errors().len() > 0 && e@ == self@.errors(),
            },
    {
        proof {
            use_type_invariant(&self);
        }
        let ghost v = self@;
        let RegistryBuilder { data, .. } = self;
        let BuilderData { names, order, stages, pins, properties, cap } = data;
        let ghost nv = names_view(names@);
        assert(nv == v.names);
        let n = names.len();
        let mut errors: Vec<BuildErrorKind<Name>> = Vec::new();
        match cap {
            Some(c) => {
                if c < n as u32 {
                    errors.push(BuildErrorKind::CapExceeded { len: n as u32, cap: c });
                }
            },
            None => {},
        }
        proof {
            assert(errs_view(errors@) =~= v.cap_errors());
        }
        let (slot_of, owner_of) = resolve_pins(&pins, &names, &mut errors);
        proof {
            lemma_pin_plan(pins@, nv);
        }
        let ids = assign_ids(&order, &slot_of, &owner_of);
        let perm = invert_order(&order, &ids);
        let inv = old_indices(&perm, Ghost(order@), Ghost(ids@));
        proof {
            lemma_perm_of(order@, ids@, n as nat);
            assert(ids@ == v.ids());
            assert(perm@ == v.perm());
        }
        let by_id = names_by_final_id(&names, &inv);
        proof {
            assert(names_view(by_id@) =~= v.by_id());
        }
        let ghost bv = names_view(by_id@);
        let ghost after_pins = errs_view(errors@);
        let mut layouts: Vec<Vec<Option<usize>>> = Vec::new();
        let mut s: usize = 0;
        while s < stages.len()
            invariant
                s <= stages@.len(),
                v.stages == stages@.map_values(|st: Stage| st.view()),
                v.wf(),
                n == v.n(),
                perm@ == v.perm(),
                is_perm(perm@, n as nat),
                by_id@.len() == n,
                bv == names_view(by_id@),
                layouts@.len() == s,
                forall|t: int| 0 <= t < s ==> (#[trigger] layouts@[t])@.len() == n && layout_injective(layouts@[t]@),
                forall|t: int| 0 <= t < s ==> (#[trigger] layouts@[t])@ == last_layout(staged_ids(v.stages[t].owners, perm@), n as nat),
                errs_view(errors@) == after_pins + stages_errors(v.stages, perm@, bv, s as nat),
            decreases stages@.len() - s,
        {
            proof {
                assert(stages@[s as int].view() == v.stages[s as int]);
                assert forall|k: int| 0 <= k < stages@[s as int].owners@.len() implies #[trigger] stages@[s as int].owners@[k] < perm@.len() by {
                    assert(v.stages[s as int].owners[k] < v.n());
                }
            }
            let staged = stage_ids(&stages[s], &perm);
            proof {
                assert forall|k: int| 0 <= k < staged@.len() implies #[trigger] staged@[k] < by_id@.len() by {
                    assert(perm@[stages@[s as int].owners@[k] as int] < n);
                }
            }
            let layout = check_values(&staged, &by_id, stages[s].component, stages[s].storage, &mut errors);
            proof {
                assert(staged@ == staged_ids(v.stages[s as int].owners, perm@));
            }
            layouts.push(layout);
            s = s + 1;
        }
        proof {
            assert(properties@ == v.props);
            assert forall|k: int| 0 <= k < properties@.len() implies (#[trigger] properties@[k]).0 < nv.len() && properties@[k].1.count > 0 by {
                assert(v.props[k] == properties@[k]);
            }
            lemma_prop_plan_counts(properties@, nv);
        }
        let decls = gather_props(&properties, &names, &mut errors);
        proof {
            assert forall|o: int, j: int|
                0 <= o < decls@.len() && 0 <= j < decls@[o]@.len() implies (#[trigger] decls@[o]@[j]).count > 0 by {
                assert(decls_view(decls@)[o] == decls@[o]@);
                assert(v.props_plan().decls[o][j] == decls@[o]@[j]);
            }
        }
        let (slots, counts) = states_by_id(&decls, &perm, &names, &mut errors);
        proof {
            assert forall|i: int| 0 <= i < n implies v.counts_by_id()[i] == #[trigger] counts@[i] as nat by {
                let o = v.old_of(i as u32);
                assert(perm@[o as int] == i as u32);
            }
        }
        let bases = compute_bases(&counts, &by_id, Ghost(v.counts_by_id()), &mut errors);
        proof {
            assert(errs_view(errors@) =~= v.errors());
        }
        if errors.len() == 0 {
            let mut columns: Vec<(TypeId, AnyBox)> = Vec::new();
            let mut rest = stages;
            let total = rest.len();
            let mut k: usize = 0;
            let ghost mut lays: Seq<Seq<Option<usize>>> = Seq::empty();
            while rest.len() > 0
                invariant
                    k + rest@.len() == v.stages.len(),
                    v.perm() == perm@,
                    v.n() == n,
                    forall|t: int| 0 <= t < layouts@.len() ==> (#[trigger] layouts@[t])@ == last_layout(staged_ids(v.stages[t].owners, perm@), n as nat),
                    lays == v.stages.take(k as int).map_values(
                        |st: StageView| last_layout(staged_ids(st.owners, v.perm()), v.n()),
                    ),
                    total == v.stages.len(),
                    v.stages == stages@.map_values(|st: Stage| st.view()),
                    forall|j: int| 0 <= j < rest@.len() ==> #[trigger] rest@[j].view() == v.stages[k + j],
                    layouts@.len() == v.stages.len(),
                    forall|t: int| 0 <= t < layouts@.len() ==> (#[trigger] layouts@[t])@.len() == n && layout_injective(layouts@[t]@),
                    n <= u32::MAX,
                    columns@.map_values(|c: (TypeId, AnyBox)| c.0) == v.stages.take(k as int).map_values(|st: StageView| st.key),
                decreases rest@.len(),
            {
                let ghost rest0 = rest@;
                let stage = rest.remove(0);
                proof {
                    assert(stage.view() == v.stages[k as int]);
                    assert forall|j: int| 0 <= j < rest@.len() implies #[trigger] rest@[j].view() == v.stages[k + 1 + j] by {
                        assert(rest@[j] == rest0[j + 1]);
                    }
                }
                let Stage { key, values, finisher, .. } = stage;
                let (col, used) = finisher.get().assemble(values, &layouts[k]);
                let ghost before = columns@;
                columns.push((key, col));
                proof {
                    let lays0 = lays;
                    lays = lays.push(used@);
                    assert(lays =~= v.stages.take(k as int + 1).map_values(
                        |st: StageView| last_layout(staged_ids(st.owners, v.perm()), v.n()),
                    )) by {
                        assert(v.stages.take(k as int + 1) =~= v.stages.take(k as int).push(v.stages[k as int]));
                    }
                    assert(columns@ == before.push((key, col)));
                    assert(columns@.map_values(|c: (TypeId, AnyBox)| c.0) =~= before.map_values(|c: (TypeId, AnyBox)| c.0).push(key));
                    assert(v.stages.take(k as int + 1) =~= v.stages.take(k as int).push(v.stages[k as int]));
                    assert(columns@.map_values(|c: (TypeId, AnyBox)| c.0) =~= v.stages.take(k as int + 1).map_values(|st: StageView| st.key));
                }
                k = k + 1;
            }
            proof {
                assert(v.stages.take(k as int) =~= v.stages);
            }
            let ghost lays_all = lays;
            proof {
                lemma_model_wf(v);
                let sv = slots@.map_values(|x: Vec<PropertySlot>| x@);
                assert(sv =~= v.slots_by_id()) by {
                    lemma_state_errors_empty(v.props_plan().decls, v.names, v.n());
                    assert forall|i: int| 0 <= i < n implies sv[i] == v.slots_by_id()[i] by {
                        let o = v.old_of(i as u32);
                        assert(perm@[o as int] == i as u32);
                        assert(!too_many_states(v.props_plan().decls[o as int]));
                    }
                }
                assert(by_id@.map_values(|x: Name| x@) == v.by_id());
                assert((RegistryModel {
                    names: by_id@.map_values(|x: Name| x@),
                    sorted: ids@,
                    bases: bases@,
                    slots: sv,
                    keys: columns@.map_values(|c: (TypeId, AnyBox)| c.0),
                    layouts: lays_all,
                }) == v.model());
            }
            let registry = Registry::from_parts(by_id, ids, bases, slots, columns, Ghost(lays_all));
            let pm = Perm::from_map(perm);
            let init = RegistryInit::new(registry, pm);
            Ok(init)
        } else {
            Err(BuildError::new(errors))
        }
    }

    /// Builds the registry; fails with every problem found, in order.
    pub fn build(self) -> (r: Result<Registry<K, Name>, BuildError<Name>>)
        ensures
            match r {
                Ok(reg) => self@.errors().len() == 0 && reg@ == self@.model() && reg@.wf(),
                Err(e) => self@.errors().len() > 0 && e@ == self@.errors(),
            },
    {
        match self.build_init() {
            Ok(init) => Ok(init.build()),
            Err(e) => Err(e),
        }
    }
}

} // verus!
