//! A built registry: entries by id and by name, facet columns, and the
//! state numbering of each entry.
use core::any::TypeId;
use core::marker::PhantomData;
use vstd::prelude::*;
use crate::counting::is_perm;
use crate::erased::AnyBox;
use crate::name::Name;
use crate::registry::plan::{last_layout, sorted_by_name};
use crate::state::PropertySlot;
use crate::erased::{same_type, type_key};
use crate::facet::{Column, Facet, StorageKind, kind_of, storage_kind};
use crate::registry::error::{BuildError, BuildErrorKind};
use crate::registry::plan::{ErrView, value_errors, missing_errors, occurrences};
use crate::registry::steps::{check_values, errs_view, lemma_errs_push, names_view};
use crate::registry::column::{column_from_layout, layout_fits};
use crate::state::Property;
use crate::name::str_chars;
use crate::order::{Rank, compare_texts, is_prefix, lemma_lt_transitive, lemma_lt_trichotomy, lemma_prefix_between, lemma_prefix_not_before, starts_with, text_lt};
use crate::id::{Id, StateId};
use crate::registry::builder::RegistryBuilder;
use crate::radix::{lemma_replace_digit, lemma_low_digit_kept, lemma_high_digit_kept, digit_of, replace_digit};

verus! {

/// What a registry holds.
pub struct RegistryModel {
    /// Name of each entry, by id.
    pub names: Seq<Seq<char>>,
    /// Ids in name order.
    pub sorted: Seq<u32>,
    /// First state of each entry, by id, then the total number of states.
    pub bases: Seq<u32>,
    /// Property slots of each entry, by id.
    pub slots: Seq<Seq<PropertySlot>>,
    /// Type keys of the columns, in order.
    pub keys: Seq<TypeId>,
    /// For each column, in order, the layout its values were placed by: for
    /// each id, the position of its value among the values given, or none.
    pub layouts: Seq<Seq<Option<usize>>>,
}

/// Product of the value counts of `sl[j..]`.
pub open spec fn slot_product(sl: Seq<PropertySlot>, j: int) -> nat
    decreases sl.len() - j,
{
    if j < 0 || j >= sl.len() {
        1
    } else {
        sl[j].count as nat * slot_product(sl, j + 1)
    }
}

/// `sl` numbers `count` states in mixed radix: every property has at least
/// one value, the last one varies fastest, and each stride is the product
/// of the counts after it.
pub open spec fn radix_ok(sl: Seq<PropertySlot>, count: nat) -> bool {
    &&& count == slot_product(sl, 0)
    &&& forall|j: int| 0 <= j < sl.len() ==> (#[trigger] sl[j]).count > 0
    &&& forall|j: int| 0 <= j < sl.len() ==> (#[trigger] sl[j]).stride == slot_product(sl, j + 1)
}

impl RegistryModel {
    pub open spec fn n(self) -> nat {
        self.names.len()
    }

    /// Number of states of entry `id`.
    pub open spec fn count(self, id: int) -> int {
        self.bases[id + 1] - self.bases[id]
    }

    /// The entry that state `s` belongs to.
    pub open spec fn owner(self, s: u32, id: int) -> bool {
        0 <= id < self.n() && self.bases[id] <= s < self.bases[id + 1]
    }

    /// The entry that state `s` belongs to, for a state below the total.
    pub open spec fn entry_at(self, s: u32) -> int {
        choose|e: int| self.owner(s, e)
    }

    /// The value number of the property with key `key` in state `s`, when
    /// the state's entry has that property.
    pub open spec fn property_of(self, s: u32, key: TypeId) -> Option<u32> {
        let e = self.entry_at(s);
        match find_slot(self.slots[e], key) {
            Some(j) => Some(digit(self.slots[e][j], s - self.bases[e]) as u32),
            None => None,
        }
    }

    /// The state of the same entry as `s` in which the property with key
    /// `key` has value number `v` and the others are unchanged.
    pub open spec fn set_of(self, s: u32, key: TypeId, v: u32) -> Option<u32> {
        let e = self.entry_at(s);
        match find_slot(self.slots[e], key) {
            Some(j) => {
                let sl = self.slots[e][j];
                if v < sl.count {
                    Some((s - digit(sl, s - self.bases[e]) * sl.stride + v * sl.stride) as u32)
                } else {
                    None
                }
            },
            None => None,
        }
    }

    /// The entries whose name starts with `p` are exactly those at positions
    /// `start..start + len` in name order.
    pub open spec fn range_at(self, p: Seq<char>, start: int, len: int) -> bool {
        &&& 0 <= start <= start + len <= self.n()
        &&& forall|k: int|
            0 <= k < self.n() ==> (is_prefix(p, #[trigger] self.names[self.sorted[k] as int]) <==> start <= k
                < start + len)
    }

    pub open spec fn wf(self) -> bool {
        &&& self.n() <= u32::MAX
        &&& is_perm(self.sorted, self.n())
        &&& sorted_by_name(self.names, self.sorted)
        &&& self.bases.len() == self.n() + 1
        &&& self.bases[0] == 0
        &&& forall|id: int| 0 <= id < self.n() ==> #[trigger] self.bases[id] < self.bases[id + 1]
        &&& self.slots.len() == self.n()
        &&& forall|id: int| 0 <= id < self.n() ==> radix_ok(#[trigger] self.slots[id], self.count(id) as nat)
        &&& forall|a: int, b: int|
            0 <= a < b < self.keys.len() ==> #[trigger] self.keys[a] != #[trigger] self.keys[b]
    }
}

/// What a registry holds.
pub(crate) struct RegistryData {
    pub(crate) names: Vec<Name>,
    pub(crate) sorted: Vec<u32>,
    pub(crate) bases: Vec<u32>,
    pub(crate) slots: Vec<Vec<PropertySlot>>,
    pub(crate) columns: Vec<(TypeId, AnyBox)>,
    pub(crate) layouts: Ghost<Seq<Seq<Option<usize>>>>,
}

impl View for RegistryData {
    type V = RegistryModel;

    closed spec fn view(&self) -> RegistryModel {
        RegistryModel {
            names: self.names@.map_values(|n: Name| n@),
            sorted: self.sorted@,
            bases: self.bases@,
            slots: self.slots@.map_values(|v: Vec<PropertySlot>| v@),
            keys: self.columns@.map_values(|c: (TypeId, AnyBox)| c.0),
            layouts: self.layouts@,
        }
    }
}

/// Entries by id and by name, typed facet columns, and the states of each
/// entry.
pub struct Registry<K, S = Name> {
    pub(crate) data: RegistryData,
    _k: PhantomData<(K, S)>,
}

impl<K, S> Registry<K, S> {
    /// Ids are a permutation in name order, state numbers are laid out in
    /// mixed radix per entry, and column keys are distinct.
    #[verifier::type_invariant]
    spec fn registry_inv(self) -> bool {
        self.data@.wf()
    }
}

impl<K> View for Registry<K, Name> {
    type V = RegistryModel;

    closed spec fn view(&self) -> RegistryModel {
        self.data@
    }
}

/// The map from the provisional index of each entry (its creation order)
/// to its final id.
pub struct Perm<K> {
    pub(crate) map: Vec<u32>,
    pub(crate) _k: PhantomData<K>,
}

impl<K> View for Perm<K> {
    type V = Seq<u32>;

    closed spec fn view(&self) -> Seq<u32> {
        self.map@
    }
}

/// A built registry to which columns can still be added.
pub struct RegistryInit<K, S = Name> {
    pub(crate) registry: Registry<K, S>,
    pub(crate) perm: Perm<K>,
}

impl<K> Registry<K, Name> {
    /// A registry from its parts.
    pub(crate) fn from_parts(
        names: Vec<Name>,
        sorted: Vec<u32>,
        bases: Vec<u32>,
        slots: Vec<Vec<PropertySlot>>,
        columns: Vec<(TypeId, AnyBox)>,
        layouts: Ghost<Seq<Seq<Option<usize>>>>,
    ) -> (r: Self)
        requires
            (RegistryModel {
                names: names@.map_values(|n: Name| n@),
                sorted: sorted@,
                bases: bases@,
                slots: slots@.map_values(|v: Vec<PropertySlot>| v@),
                keys: columns@.map_values(|c: (TypeId, AnyBox)| c.0),
                layouts: layouts@,
            }).wf(),
        ensures
            r@ == (RegistryModel {
                names: names@.map_values(|n: Name| n@),
                sorted: sorted@,
                bases: bases@,
                slots: slots@.map_values(|v: Vec<PropertySlot>| v@),
                keys: columns@.map_values(|c: (TypeId, AnyBox)| c.0),
                layouts: layouts@,
            }),
    {
        Registry { data: RegistryData { names, sorted, bases, slots, columns, layouts }, _k: PhantomData }
    }

    /// A registry without entries or columns.
    pub(crate) fn empty() -> (r: Self)
        ensures
            r@.n() == 0,
    {
        let r = RegistryData { names: Vec::new(), sorted: Vec::new(), bases: vec![0u32], slots: Vec::new(), columns: Vec::new(), layouts: Ghost(Seq::empty()) };
        proof {
            assert(r@.names =~= Seq::<Seq<char>>::empty());
            assert(r@.slots =~= Seq::<Seq<PropertySlot>>::empty());
            assert(r@.keys =~= Seq::<TypeId>::empty());
        }
        Registry { data: r, _k: PhantomData }
    }

    /// The registry with one more column, with key `key`.
    pub(crate) fn with_column(self, key: TypeId, column: AnyBox, layout: Ghost<Seq<Option<usize>>>) -> (r: Self)
        requires
            !self@.keys.contains(key),
        ensures
            r@ == (RegistryModel {
                keys: self@.keys.push(key),
                layouts: self@.layouts.push(layout@),
                ..self@
            }),
    {
        proof {
            use_type_invariant(&self);
        }
        let ghost m = self@;
        let Registry { data, _k } = self;
        let mut data = data;
        data.columns.push((key, column));
        data.layouts = Ghost(data.layouts@.push(layout@));
        proof {
            assert(data@.keys =~= m.keys.push(key));
            assert(data@ == (RegistryModel { keys: m.keys.push(key), layouts: m.layouts.push(layout@), ..m }));
            assert forall|a: int, b: int|
                0 <= a < b < data@.keys.len() implies #[trigger] data@.keys[a] != #[trigger] data@.keys[b] by {
                if b == m.keys.len() {
                    assert(m.keys[a] != key);
                }
            }
        }
        Registry { data, _k }
    }
}

impl<K> Perm<K> {
    /// The permutation with final id `map[o]` for provisional index `o`.
    pub(crate) fn from_map(map: Vec<u32>) -> (r: Self)
        requires
            is_perm(map@, map@.len()),
            map@.len() <= u32::MAX,
        ensures
            r@ == map@,
    {
        Perm { map, _k: PhantomData }
    }
}

impl<K> Perm<K> {
    /// Every id below the length occurs exactly once.
    #[verifier::type_invariant]
    spec fn perm_inv(self) -> bool {
        &&& is_perm(self.map@, self.map@.len())
        &&& self.map@.len() <= u32::MAX
    }

    /// The final id of the entry with provisional index `provisional`.
    pub fn id(&self, provisional: u32) -> (r: Id<K>)
        requires
            provisional < self@.len(),
        ensures
            r@ == self@[provisional as int],
    {
        Id::from_raw(self.map[provisional as usize])
    }

    /// Reorders `items`, given by provisional index, into id order: item
    /// `i` goes to position `self@[i]`.
    pub fn permute<T>(&self, items: Vec<T>) -> (r: Vec<T>)
        requires
            items@.len() == self@.len(),
        ensures
            r@.len() == items@.len(),
            forall|i: int| 0 <= i < items@.len() ==> r@[self@[i] as int] == #[trigger] items@[i],
    {
        proof {
            use_type_invariant(self);
        }
        let n = items.len();
        let ghost its = items@;
        let mut rest = items;
        let mut rev: Vec<T> = Vec::new();
        while rest.len() > 0
            invariant
                rest@.len() + rev@.len() == n,
                n == its.len(),
                forall|k: int| 0 <= k < rest@.len() ==> #[trigger] rest@[k] == its[k],
                forall|k: int| 0 <= k < rev@.len() ==> #[trigger] rev@[k] == its[n - 1 - k],
            decreases rest@.len(),
        {
            let x = rest.pop().unwrap();
            rev.push(x);
        }
        let mut out: Vec<Option<T>> = Vec::new();
        let mut k: usize = 0;
        while k < n
            invariant
                k <= n,
                out@.len() == k,
                forall|x: int| 0 <= x < k ==> #[trigger] out@[x] is None,
            decreases n - k,
        {
            out.push(None);
            k = k + 1;
        }
        let mut i: usize = 0;
        while rev.len() > 0
            invariant
                i + rev@.len() == n,
                n == its.len(),
                n == self@.len(),
                self@ == self.map@,
                is_perm(self@, n as nat),
                out@.len() == n,
                forall|k: int| 0 <= k < rev@.len() ==> #[trigger] rev@[k] == its[n - 1 - k],
                forall|x: int| 0 <= x < i ==> out@[self@[x] as int] == Some(#[trigger] its[x]),
                forall|y: int|
                    0 <= y < n && (forall|x: int| 0 <= x < i ==> self@[x] != y) ==> #[trigger] out@[y] is None,
            decreases rev@.len(),
        {
            let x = rev.pop().unwrap();
            let slot = self.map[i] as usize;
            proof {
                assert(x == its[i as int]);
                assert forall|z: int| 0 <= z < i implies self@[z] != self@[i as int] by {}
            }
            out.set(slot, Some(x));
            i = i + 1;
        }
        let mut r: Vec<T> = Vec::new();
        let mut y: usize = 0;
        while y < n
            invariant
                y <= n,
                n == its.len(),
                n == self@.len(),
                n <= u32::MAX,
                is_perm(self@, n as nat),
                out@.len() == n,
                r@.len() == y,
                forall|x: int| 0 <= x < n && self@[x] >= y ==> out@[self@[x] as int] == Some(#[trigger] its[x]),
                forall|x: int| 0 <= x < n && self@[x] < y ==> r@[self@[x] as int] == #[trigger] its[x],
            decreases n - y,
        {
            proof {
                crate::counting::lemma_perm_onto(self@, n as nat, y as u32);
            }
            let v = out[y].take();
            match v {
                Some(t) => {
                    r.push(t);
                },
                None => {
                    proof {
                        let x = choose|x: int| 0 <= x < n && self@[x] == y as u32;
                        assert(out@[self@[x] as int] == Some(its[x]));
                        assert(false);
                    }
                },
            }
            y = y + 1;
        }
        r
    }
}

impl<K> RegistryInit<K, Name> {
    /// The registry built so far.
    pub closed spec fn model(&self) -> RegistryModel {
        self.registry@
    }

    /// The registry being finished.
    pub closed spec fn inner(&self) -> Registry<K, Name> {
        self.registry
    }

    /// The map from provisional index to id.
    pub closed spec fn map(&self) -> Seq<u32> {
        self.perm@
    }

    pub(crate) fn new(registry: Registry<K, Name>, perm: Perm<K>) -> (r: Self)
        ensures
            r.model() == registry@,
            r.map() == perm@,
    {
        RegistryInit { registry, perm }
    }
}

impl<K: Send + Sync + 'static> RegistryInit<K, Name> {
    /// The map from provisional index to id.
    pub fn perm(&self) -> (r: &Perm<K>)
        ensures
            r@ == self.map(),
            is_perm(r@, r@.len()),
    {
        proof {
            use_type_invariant(&self.perm);
        }
        &self.perm
    }

    /// The same registry, for kind `K2`.
    pub(crate) fn retype<K2>(self) -> (r: RegistryInit<K2, Name>)
        ensures
            r.model() == self.model(),
            r.map() == self.map(),
    {
        proof {
            use_type_invariant(&self.registry);
        }
        let RegistryInit { registry, perm } = self;
        let Registry { data, _k } = registry;
        proof {
            use_type_invariant(&perm);
        }
        let Perm { map, _k: _p } = perm;
        RegistryInit { registry: Registry { data, _k: PhantomData }, perm: Perm { map, _k: PhantomData } }
    }

    /// The registry built so far.
    pub(crate) fn as_registry(&self) -> (r: &Registry<K, Name>)
        ensures
            r@ == self.model(),
    {
        &self.registry
    }

    /// The registry, with no more columns to add.
    pub fn build(self) -> (r: Registry<K, Name>)
        ensures
            r@ == self.model(),
    {
        self.registry
    }
}

/// The first slot of `sl` for property key `key`.
pub open spec fn find_slot(sl: Seq<PropertySlot>, key: TypeId) -> Option<int>
    decreases sl.len(),
{
    if sl.len() == 0 {
        None
    } else {
        match find_slot(sl.drop_last(), key) {
            Some(j) => Some(j),
            None => if sl.last().id == key {
                Some(sl.len() - 1)
            } else {
                None
            },
        }
    }
}

/// The value number of the property in slot `sl` within local state
/// number `local`.
pub open spec fn digit(sl: PropertySlot, local: int) -> int {
    (local / sl.stride as int) % sl.count as int
}

/// The positions of the names of `pal[..k]` that are not in the registry,
/// with the names.
pub open spec fn unresolved(names: Seq<Seq<char>>, pal: Seq<Seq<char>>, k: nat) -> Seq<(usize, Seq<char>)>
    decreases k,
{
    if k == 0 {
        Seq::empty()
    } else {
        let rest = unresolved(names, pal, (k - 1) as nat);
        if names.contains(pal[k - 1]) {
            rest
        } else {
            rest.push(((k - 1) as usize, pal[k - 1]))
        }
    }
}

/// Where each name of a palette is found in a registry.
pub struct Remap<K> {
    /// The id of each palette name, when the registry has it.
    pub slots: Vec<Option<Id<K>>>,
    /// The position and name of each palette name the registry lacks.
    pub missing: Vec<(usize, Name)>,
}

impl<K> Remap<K> {
    /// Whether every palette name was found.
    pub fn is_complete(&self) -> (r: bool)
        ensures
            r == (self.missing@.len() == 0),
    {
        self.missing.len() == 0
    }
}

pub proof fn lemma_find_slot(sl: Seq<PropertySlot>, key: TypeId)
    ensures
        match find_slot(sl, key) {
            Some(j) => 0 <= j < sl.len() && sl[j].id == key && forall|x: int| 0 <= x < j ==> sl[x].id != key,
            None => forall|x: int| 0 <= x < sl.len() ==> sl[x].id != key,
        },
    decreases sl.len(),
{
    if sl.len() > 0 {
        let pre = sl.drop_last();
        lemma_find_slot(pre, key);
        assert forall|x: int| 0 <= x < pre.len() implies pre[x] == sl[x] by {}
    }
}

/// Product of the value counts of `sl[..j]`.
pub open spec fn slot_prefix(sl: Seq<PropertySlot>, j: int) -> nat
    decreases j,
{
    if j <= 0 || j > sl.len() {
        1
    } else {
        slot_prefix(sl, j - 1) * sl[j - 1].count as nat
    }
}

pub proof fn lemma_slot_product_positive(sl: Seq<PropertySlot>, j: int)
    requires
        0 <= j <= sl.len(),
        forall|x: int| 0 <= x < sl.len() ==> (#[trigger] sl[x]).count > 0,
    ensures
        slot_product(sl, j) >= 1,
        slot_prefix(sl, j) >= 1,
        slot_product(sl, 0) == slot_prefix(sl, j) * slot_product(sl, j),
    decreases j,
{
    lemma_slot_suffix_positive(sl, j);
    if j == 0 {
        assert(slot_prefix(sl, 0) == 1);
    } else {
        lemma_slot_product_positive(sl, j - 1);
        let p = slot_prefix(sl, j - 1);
        let c = sl[j - 1].count as nat;
        let q = slot_product(sl, j);
        assert(slot_product(sl, j - 1) == c * q);
        assert(slot_prefix(sl, j) == p * c);
        assert(slot_product(sl, 0) == p * slot_product(sl, j - 1));
        assert(p * (c * q) == (p * c) * q) by (nonlinear_arith);
        assert(slot_product(sl, 0) == p * (c * q));
        assert(p * c >= 1) by (nonlinear_arith)
            requires
                p >= 1,
                c >= 1,
        ;
    }
}

proof fn lemma_slot_suffix_positive(sl: Seq<PropertySlot>, j: int)
    requires
        0 <= j <= sl.len(),
        forall|x: int| 0 <= x < sl.len() ==> (#[trigger] sl[x]).count > 0,
    ensures
        slot_product(sl, j) >= 1,
    decreases sl.len() - j,
{
    if j < sl.len() {
        lemma_slot_suffix_positive(sl, j + 1);
        let c = sl[j].count as nat;
        let q = slot_product(sl, j + 1);
        assert(c * q >= 1) by (nonlinear_arith)
            requires
                c >= 1,
                q >= 1,
        ;
    }
}

/// State bases never decrease.
pub proof fn lemma_bases_increase(m: RegistryModel)
    requires
        m.wf(),
    ensures
        forall|a: int, b: int| 0 <= a <= b <= m.n() ==> #[trigger] m.bases[a] <= #[trigger] m.bases[b],
{
    assert forall|a: int, b: int| 0 <= a <= b <= m.n() implies #[trigger] m.bases[a] <= #[trigger] m.bases[b] by {
        lemma_bases_step(m, a, b);
    }
}

proof fn lemma_bases_step(m: RegistryModel, a: int, b: int)
    requires
        m.wf(),
        0 <= a <= b <= m.n(),
    ensures
        m.bases[a] <= m.bases[b],
    decreases b - a,
{
    if a < b {
        lemma_bases_step(m, a, b - 1);
        assert(m.bases[b - 1] < m.bases[b]);
    }
}

/// A state belongs to at most one entry.
pub proof fn lemma_owner_unique(m: RegistryModel, s: u32, i: int)
    requires
        m.wf(),
        m.owner(s, i),
    ensures
        forall|e: int| m.owner(s, e) ==> e == i,
{
    lemma_bases_increase(m);
    assert forall|e: int| m.owner(s, e) implies e == i by {
        if e < i {
            assert(m.bases[e + 1] <= m.bases[i]);
        } else if e > i {
            assert(m.bases[i + 1] <= m.bases[e]);
        }
    }
}

/// Strides are positive.
pub proof fn lemma_stride_positive(sl: Seq<PropertySlot>, j: int)
    requires
        radix_ok(sl, slot_product(sl, 0)),
        0 <= j < sl.len(),
    ensures
        sl[j].stride >= 1,
        sl[j].count >= 1,
{
    lemma_slot_suffix_positive(sl, j + 1);
}

/// Setting a property of a state to a value below its count stays within
/// the state's entry.
pub proof fn lemma_set_in_range(m: RegistryModel, e: int, j: int, s: u32, v: u32)
    requires
        m.wf(),
        m.owner(s, e),
        0 <= j < m.slots[e].len(),
        v < m.slots[e][j].count,
    ensures
        ({
            let sl = m.slots[e][j];
            let l = s - m.bases[e];
            &&& digit(sl, l) * sl.stride <= l
            &&& m.bases[e] <= s - digit(sl, l) * sl.stride + v * sl.stride < m.bases[e + 1]
            &&& digit(sl, l) < sl.count
        }),
{
    let ss = m.slots[e];
    assert(radix_ok(ss, m.count(e) as nat));
    lemma_slot_product_positive(ss, j);
    lemma_stride_positive(ss, j);
    let sl = ss[j];
    let l = s - m.bases[e];
    let st = sl.stride as int;
    let c = sl.count as int;
    let pre = slot_prefix(ss, j) as int;
    assert(slot_product(ss, j) == c * st);
    lemma_replace_digit(l, st, c, v as int, pre);
}

/// Product of the value counts of `sl[a..b]`.
pub open spec fn range_product(sl: Seq<PropertySlot>, a: int, b: int) -> nat
    decreases b - a,
{
    if a >= b || a < 0 || b > sl.len() {
        1
    } else {
        sl[a].count as nat * range_product(sl, a + 1, b)
    }
}

proof fn lemma_product_split(sl: Seq<PropertySlot>, a: int, b: int)
    requires
        0 <= a <= b <= sl.len(),
        forall|x: int| 0 <= x < sl.len() ==> (#[trigger] sl[x]).count > 0,
    ensures
        slot_product(sl, a) == range_product(sl, a, b) * slot_product(sl, b),
        range_product(sl, a, b) >= 1,
    decreases b - a,
{
    if a == b {
        assert(range_product(sl, a, b) == 1);
    } else {
        lemma_product_split(sl, a + 1, b);
        let c = sl[a].count as nat;
        let q = range_product(sl, a + 1, b);
        let p = slot_product(sl, b);
        assert(slot_product(sl, a) == c * slot_product(sl, a + 1));
        assert(range_product(sl, a, b) == c * q);
        assert(slot_product(sl, a) == c * (q * p));
        assert(c * (q * p) == (c * q) * p) by (nonlinear_arith);
        assert(c * q >= 1) by (nonlinear_arith)
            requires
                c >= 1,
                q >= 1,
        ;
    }
}

/// A state below the total belongs to some entry.
pub proof fn lemma_owner_exists(m: RegistryModel, s: u32)
    requires
        m.wf(),
        s < m.bases.last(),
    ensures
        m.owner(s, m.entry_at(s)),
{
    lemma_owner_below(m, s, m.n() as int);
}

proof fn lemma_owner_below(m: RegistryModel, s: u32, k: int)
    requires
        m.wf(),
        0 <= k <= m.n(),
        s < m.bases[k],
    ensures
        m.owner(s, m.entry_at(s)),
    decreases k,
{
    if k > 0 {
        if m.bases[k - 1] <= s {
            assert(m.owner(s, k - 1));
        } else {
            lemma_owner_below(m, s, k - 1);
        }
    }
}

/// Setting a property of a state and reading it back gives the value set;
/// the state stays with its entry and every other property of the entry
/// keeps its value.
pub proof fn lemma_set_then_read(m: RegistryModel, s: u32, key: TypeId, v: u32, other: TypeId)
    requires
        m.wf(),
        s < m.bases.last(),
        m.set_of(s, key, v) is Some,
    ensures
        ({
            let t = m.set_of(s, key, v)->0;
            &&& t < m.bases.last()
            &&& m.entry_at(t) == m.entry_at(s)
            &&& m.property_of(t, key) == Some(v)
            &&& other != key ==> m.property_of(t, other) == m.property_of(s, other)
        }),
{
    lemma_owner_exists(m, s);
    let e = m.entry_at(s);
    let ss = m.slots[e];
    lemma_find_slot(ss, key);
    let j = find_slot(ss, key)->0;
    let sl = ss[j];
    let t = m.set_of(s, key, v)->0;
    lemma_set_in_range(m, e, j, s, v);
    assert(radix_ok(ss, m.count(e) as nat));
    lemma_slot_product_positive(ss, j);
    lemma_stride_positive(ss, j);
    let l = s - m.bases[e];
    let st = sl.stride as int;
    let c = sl.count as int;
    lemma_replace_digit(l, st, c, v as int, slot_prefix(ss, j) as int);
    let l2 = t - m.bases[e];
    assert(l2 == replace_digit(l, st, c, v as int));
    lemma_bases_increase(m);
    assert(m.bases[e + 1] <= m.bases.last());
    assert(m.owner(t, e));
    lemma_owner_exists(m, t);
    lemma_owner_unique(m, t, e);
    lemma_owner_unique(m, s, e);
    assert(digit(sl, l2) == v);
    if other != key {
        lemma_find_slot(ss, other);
        if let Some(i) = find_slot(ss, other) {
            let si = ss[i];
            lemma_stride_positive(ss, i);
            assert(i != j);
            if i > j {
                lemma_product_split(ss, j + 1, i);
                let q = range_product(ss, j + 1, i) as int;
                assert(slot_product(ss, i) == si.count * slot_product(ss, i + 1));
                lemma_low_digit_kept(l, l2, st, q, si.stride as int, si.count as int);
            } else {
                lemma_product_split(ss, i + 1, j);
                let q = range_product(ss, i + 1, j) as int;
                assert(slot_product(ss, j) == c * st);
                lemma_high_digit_kept(l, l2, c * st, q, si.count as int);
            }
        }
    }
}

/// The first state of an entry belongs to that entry.
pub proof fn lemma_default_state_entry(m: RegistryModel, id: int)
    requires
        m.wf(),
        0 <= id < m.n(),
    ensures
        m.entry_at(m.bases[id]) == id,
        m.bases[id] < m.bases.last(),
{
    lemma_bases_increase(m);
    assert(m.owner(m.bases[id], id));
    lemma_owner_unique(m, m.bases[id], id);
}

/// When no entry has a property, every entry has one state and the state
/// numbers are the ids.
pub proof fn lemma_no_props_states_are_ids(m: RegistryModel)
    requires
        m.wf(),
        forall|id: int| 0 <= id < m.n() ==> (#[trigger] m.slots[id]).len() == 0,
    ensures
        forall|id: int| 0 <= id <= m.n() ==> #[trigger] m.bases[id] == id,
{
    assert forall|id: int| 0 <= id <= m.n() implies #[trigger] m.bases[id] == id by {
        lemma_bases_are_ids(m, id);
    }
}

proof fn lemma_bases_are_ids(m: RegistryModel, k: int)
    requires
        m.wf(),
        forall|id: int| 0 <= id < m.n() ==> (#[trigger] m.slots[id]).len() == 0,
        0 <= k <= m.n(),
    ensures
        m.bases[k] == k,
    decreases k,
{
    if k > 0 {
        lemma_bases_are_ids(m, k - 1);
        assert(radix_ok(m.slots[k - 1], m.count(k - 1) as nat));
        assert(slot_product(m.slots[k - 1], 0) == 1);
    }
}

/// Entry names are distinct: looking a name up gives back its entry.
pub proof fn lemma_names_distinct(m: RegistryModel)
    requires
        m.wf(),
    ensures
        forall|a: int, b: int| 0 <= a < m.n() && 0 <= b < m.n() && a != b ==> m.names[a] != m.names[b],
{
    assert forall|a: int, b: int| 0 <= a < m.n() && 0 <= b < m.n() && a != b implies m.names[a] != m.names[b] by {
        crate::counting::lemma_perm_onto(m.sorted, m.n(), a as u32);
        crate::counting::lemma_perm_onto(m.sorted, m.n(), b as u32);
        let ka = choose|k: int| 0 <= k < m.sorted.len() && m.sorted[k] == a as u32;
        let kb = choose|k: int| 0 <= k < m.sorted.len() && m.sorted[k] == b as u32;
        if ka < kb {
            assert(text_lt(m.names[m.sorted[ka] as int], m.names[m.sorted[kb] as int]));
            crate::order::lemma_lt_irreflexive(m.names[a]);
        } else {
            assert(text_lt(m.names[m.sorted[kb] as int], m.names[m.sorted[ka] as int]));
            crate::order::lemma_lt_irreflexive(m.names[b]);
        }
    }
}

impl<K: Send + Sync + 'static> Registry<K, Name> {
    /// A builder for a registry of this kind.
    pub fn builder() -> (r: RegistryBuilder<K, Name>)
        ensures
            r@.wf(),
            r@.n() == 0,
            r@.pins.len() == 0,
            r@.props.len() == 0,
            r@.stages.len() == 0,
            r@.cap is None,
    {
        RegistryBuilder::new()
    }

    /// Number of entries.
    pub fn len(&self) -> (r: usize)
        ensures
            r == self@.n(),
            self@.wf(),
    {
        proof {
            use_type_invariant(self);
        }
        self.data.names.len()
    }

    pub fn is_empty(&self) -> (r: bool)
        ensures
            r == (self@.n() == 0),
    {
        proof {
            use_type_invariant(self);
        }
        self.data.names.len() == 0
    }

    /// Total number of states over all entries.
    pub fn total_states(&self) -> (r: u32)
        ensures
            r == self@.bases.last(),
    {
        proof {
            use_type_invariant(self);
        }
        self.data.bases[self.data.bases.len() - 1]
    }

    /// The first state of entry `id`, where all its properties have value 0.
    pub fn default_state(&self, id: Id<K>) -> (r: StateId<K>)
        requires
            id@ < self@.n(),
        ensures
            r@ == self@.bases[id@ as int],
            self@.owner(r@, id@ as int),
    {
        proof {
            use_type_invariant(self);
        }
        StateId::from_raw(self.data.bases[id.index()])
    }

    /// Number of states of entry `id`.
    pub fn state_count(&self, id: Id<K>) -> (r: u32)
        requires
            id@ < self@.n(),
        ensures
            r == self@.count(id@ as int),
    {
        proof {
            use_type_invariant(self);
        }
        let i = id.index();
        proof {
            assert(self@.bases[i as int] < self@.bases[i + 1]);
        }
        self.data.bases[i + 1] - self.data.bases[i]
    }

    /// The entry that state `state` belongs to.
    pub fn entry_of(&self, state: StateId<K>) -> (r: Id<K>)
        requires
            state@ < self@.bases.last(),
        ensures
            self@.owner(state@, r@ as int),
            r@ == self@.entry_at(state@),
    {
        proof {
            use_type_invariant(self);
        }
        let s = state.raw();
        let n = self.data.names.len();
        let mut lo: usize = 0;
        let mut hi: usize = n;
        while lo < hi
            invariant
                0 <= lo <= hi <= n,
                n == self@.n(),
                self@.wf(),
                s == state@,
                self@.bases[lo as int] <= s,
                s < self@.bases[hi as int],
            decreases hi - lo,
        {
            let mid = lo + (hi - lo) / 2;
            if self.data.bases[mid + 1] <= s {
                lo = mid + 1;
            } else if self.data.bases[mid] <= s {
                proof {
                    lemma_owner_unique(self@, s, mid as int);
                    assert(self@.owner(s, mid as int));
                    let e = self@.entry_at(s);
                    assert(self@.owner(s, e));
                }
                return Id::from_raw(mid as u32);
            } else {
                hi = mid;
            }
        }
        proof {
            assert(false);
        }
        Id::from_raw(lo as u32)
    }

    /// The first slot of entry `e` for property key `key`.
    fn slot_of(&self, e: usize, key: &TypeId) -> (r: Option<usize>)
        requires
            e < self@.n(),
        ensures
            match r {
                Some(j) => find_slot(self@.slots[e as int], *key) == Some(j as int),
                None => find_slot(self@.slots[e as int], *key) is None,
            },
    {
        proof {
            use_type_invariant(self);
        }
        let sl = &self.data.slots[e];
        proof {
            assert(sl@ == self@.slots[e as int]);
            lemma_find_slot(sl@, *key);
        }
        let mut j: usize = 0;
        while j < sl.len()
            invariant
                j <= sl@.len(),
                sl@ == self@.slots[e as int],
                forall|x: int| 0 <= x < j ==> sl@[x].id != *key,
            decreases sl@.len() - j,
        {
            if same_type(&sl[j].id, key) {
                proof {
                    lemma_find_slot(sl@, *key);
                    match find_slot(sl@, *key) {
                        Some(j0) => {
                            if j0 < j {
                                assert(sl@[j0].id != *key);
                            } else if j0 > j {
                                assert(sl@[j as int].id != *key);
                            }
                        },
                        None => {
                            assert(sl@[j as int].id != *key);
                        },
                    }
                }
                return Some(j);
            }
            j = j + 1;
        }
        proof {
            lemma_find_slot(sl@, *key);
            if let Some(j0) = find_slot(sl@, *key) {
                assert(sl@[j0].id != *key);
            }
        }
        None
    }

    /// The value number of the property with key `key` in state `state`,
    /// or `None` when the state's entry lacks that property.
    pub fn property_raw(&self, state: StateId<K>, key: &TypeId) -> (r: Option<u32>)
        requires
            state@ < self@.bases.last(),
        ensures
            r == self@.property_of(state@, *key),
    {
        proof {
            use_type_invariant(self);
        }
        let e = self.entry_of(state);
        let i = e.index();
        proof {
            lemma_owner_unique(self@, state@, i as int);
            assert(self@.entry_at(state@) == i as int);
        }
        match self.slot_of(i, key) {
            Some(j) => {
                proof {
                    lemma_find_slot(self@.slots[i as int], *key);
                    assert(self@.slots[i as int] == self.data.slots@[i as int]@);
                }
                let sl = self.data.slots[i][j];
                proof {
                    lemma_find_slot(self@.slots[i as int], *key);
                    assert(sl == self@.slots[i as int][j as int]);
                    assert(radix_ok(self@.slots[i as int], self@.count(i as int) as nat));
                    lemma_stride_positive(self@.slots[i as int], j as int);
                }
                let local = state.raw() - self.data.bases[i];
                let d = (local / sl.stride) % sl.count;
                proof {
                    assert(find_slot(self@.slots[i as int], *key) == Some(j as int));
                    assert(local == state@ - self@.bases[i as int]);
                    assert(d == digit(sl, local as int));
                }
                Some(d)
            },
            None => {
                proof {
                    assert(find_slot(self@.slots[i as int], *key) is None);
                }
                None
            },
        }
    }

    /// The state of the same entry as `state` in which the property with key
    /// `key` has value number `value` and every other property is
    /// unchanged; `None` when the entry lacks that property or `value` is
    /// not below its number of values.
    pub fn set_raw(&self, state: StateId<K>, key: &TypeId, value: u32) -> (r: Option<StateId<K>>)
        requires
            state@ < self@.bases.last(),
        ensures
            match self@.set_of(state@, *key, value) {
                Some(t) => r matches Some(x) && x@ == t,
                None => r is None,
            },
            r matches Some(t) ==> t@ < self@.bases.last() && self@.entry_at(t@) == self@.entry_at(state@),
    {
        proof {
            use_type_invariant(self);
        }
        let e = self.entry_of(state);
        let i = e.index();
        proof {
            lemma_owner_unique(self@, state@, i as int);
            assert(self@.entry_at(state@) == i as int);
        }
        match self.slot_of(i, key) {
            Some(j) => {
                proof {
                    lemma_find_slot(self@.slots[i as int], *key);
                    assert(self@.slots[i as int] == self.data.slots@[i as int]@);
                }
                let sl = self.data.slots[i][j];
                proof {
                    assert(sl == self@.slots[i as int][j as int]);
                }
                if value >= sl.count {
                    return None;
                }
                proof {
                    lemma_find_slot(self@.slots[i as int], *key);
                    assert(radix_ok(self@.slots[i as int], self@.count(i as int) as nat));
                    lemma_stride_positive(self@.slots[i as int], j as int);
                    lemma_set_in_range(self@, i as int, j as int, state@, value);
                }
                let local = state.raw() - self.data.bases[i];
                let old = (local / sl.stride) % sl.count;
                let base = state.raw() - old * sl.stride;
                let t = base + value * sl.stride;
                proof {
                    assert(self@.owner(t, i as int));
                    lemma_owner_unique(self@, t, i as int);
                    lemma_bases_increase(self@);
                    assert(self@.bases[i as int + 1] <= self@.bases[self@.n() as int]);
                }
                Some(StateId::from_raw(t))
            },
            None => None,
        }
    }

    /// The value of property `P` in state `state`, or `None` when the
    /// state's entry does not declare `P`.
    pub fn property<P: Property>(&self, state: StateId<K>) -> (r: Option<P>)
        requires
            state@ < self@.bases.last(),
        ensures
            exists|k: TypeId|
                match #[trigger] self@.property_of(state@, k) {
                    Some(d) => r matches Some(x) && call_ensures(P::from_raw, (d,), x),
                    None => r is None,
                },
    {
        proof {
            use_type_invariant(self);
        }
        let key = type_key::<P>();
        let d = self.property_raw(state, &key);
        match d {
            Some(d) => {
                let x = P::from_raw(d);
                proof {
                    assert(call_ensures(P::from_raw, (d,), x));
                    assert(self@.property_of(state@, key) == Some(d));
                }
                Some(x)
            },
            None => None,
        }
    }

    /// The state of the same entry as `state` with property `P` set to
    /// `value`, or `None` when the entry does not declare `P` or `value`
    /// numbers past the property's count.
    pub fn set<P: Property>(&self, state: StateId<K>, value: P) -> (r: Option<StateId<K>>)
        requires
            state@ < self@.bases.last(),
        ensures
            exists|k: TypeId, v: u32|
                call_ensures(P::to_raw, (value,), v) && match #[trigger] self@.set_of(state@, k, v) {
                    Some(t) => r matches Some(x) && x@ == t,
                    None => r is None,
                },
            r matches Some(t) ==> t@ < self@.bases.last() && self@.entry_at(t@) == self@.entry_at(state@),
    {
        proof {
            use_type_invariant(self);
        }
        let key = type_key::<P>();
        let ghost value0 = value;
        let raw = value.to_raw();
        let r = self.set_raw(state, &key, raw);
        proof {
            assert(call_ensures(P::to_raw, (value0,), raw));
            assert(match self@.set_of(state@, key, raw) {
                Some(t) => r matches Some(x) && x@ == t,
                None => r is None,
            });
        }
        r
    }

    /// The entries whose name starts with `prefix`, in name order.
    pub fn range(&self, prefix: &str) -> (r: Vec<(Id<K>, &Name)>)
        ensures
            exists|start: int|
                #[trigger] self@.range_at(prefix@, start, r@.len() as int) && forall|k: int|
                    0 <= k < r@.len() ==> (#[trigger] r@[k]).0@ == self@.sorted[start + k] && r@[k].1@
                        == self@.names[self@.sorted[start + k] as int],
    {
        proof {
            use_type_invariant(self);
        }
        let p = str_chars(prefix);
        let n = self.data.sorted.len();
        let ghost m = self@;
        let mut lo: usize = 0;
        let mut hi: usize = n;
        while lo < hi
            invariant
                0 <= lo <= hi <= n,
                n == m.n(),
                m == self@,
                m.wf(),
                p@ == prefix@,
                forall|k: int| 0 <= k < lo ==> text_lt(#[trigger] m.names[m.sorted[k] as int], p@),
                forall|k: int| hi <= k < n ==> !text_lt(#[trigger] m.names[m.sorted[k] as int], p@),
            decreases hi - lo,
        {
            let mid = lo + (hi - lo) / 2;
            let o = self.data.sorted[mid];
            proof {
                assert(m.sorted[mid as int] < m.n());
                assert(m.names[o as int] == self.data.names@[o as int]@);
            }
            match compare_texts(self.data.names[o as usize].chars(), &p) {
                Rank::Before => {
                    proof {
                        assert forall|k: int| 0 <= k < mid + 1 implies text_lt(
                            #[trigger] m.names[m.sorted[k] as int],
                            p@,
                        ) by {
                            if k < mid {
                                lemma_lt_transitive(m.names[m.sorted[k] as int], m.names[o as int], p@);
                            }
                        }
                    }
                    lo = mid + 1;
                },
                _ => {
                    proof {
                        lemma_lt_trichotomy(m.names[o as int], p@);
                        assert forall|k: int| mid <= k < n implies !text_lt(
                            #[trigger] m.names[m.sorted[k] as int],
                            p@,
                        ) by {
                            if k > mid {
                                assert(text_lt(m.names[o as int], m.names[m.sorted[k] as int]));
                                lemma_lt_trichotomy(m.names[m.sorted[k] as int], p@);
                                if text_lt(m.names[m.sorted[k] as int], p@) {
                                    lemma_lt_transitive(m.names[o as int], m.names[m.sorted[k] as int], p@);
                                    lemma_lt_trichotomy(m.names[o as int], p@);
                                }
                            }
                        }
                    }
                    hi = mid;
                },
            }
        }
        let start = lo;
        let mut r: Vec<(Id<K>, &Name)> = Vec::new();
        let mut j: usize = start;
        while j < n
            invariant
                start <= j <= n,
                n == m.n(),
                m == self@,
                m.wf(),
                p@ == prefix@,
                r@.len() == j - start,
                forall|k: int| 0 <= k < start ==> text_lt(#[trigger] m.names[m.sorted[k] as int], p@),
                forall|k: int| start <= k < n ==> !text_lt(#[trigger] m.names[m.sorted[k] as int], p@),
                forall|k: int| start <= k < j ==> is_prefix(p@, #[trigger] m.names[m.sorted[k] as int]),
                forall|k: int|
                    0 <= k < r@.len() ==> (#[trigger] r@[k]).0@ == m.sorted[start + k] && r@[k].1@ == m.names[m.sorted[start
                        + k] as int],
            ensures
                start <= j <= n,
                r@.len() == j - start,
                forall|k: int| start <= k < j ==> is_prefix(p@, #[trigger] m.names[m.sorted[k] as int]),
                forall|k: int|
                    0 <= k < r@.len() ==> (#[trigger] r@[k]).0@ == m.sorted[start + k] && r@[k].1@ == m.names[m.sorted[start
                        + k] as int],
                j < n ==> !is_prefix(p@, m.names[m.sorted[j as int] as int]),
            decreases n - j,
        {
            let o = self.data.sorted[j];
            proof {
                assert(m.sorted[j as int] < m.n());
                assert(m.names[o as int] == self.data.names@[o as int]@);
            }
            let name = &self.data.names[o as usize];
            if !starts_with(name.chars(), &p) {
                break;
            }
            r.push((Id::from_raw(o), name));
            j = j + 1;
        }
        proof {
            assert forall|k: int| 0 <= k < m.n() implies (is_prefix(prefix@, #[trigger] m.names[m.sorted[k] as int])
                <==> start <= k < start + r@.len()) by {
                if k < start {
                    if is_prefix(p@, m.names[m.sorted[k] as int]) {
                        lemma_prefix_not_before(p@, m.names[m.sorted[k] as int]);
                    }
                } else if k >= j {
                    if is_prefix(p@, m.names[m.sorted[k] as int]) && k > j {
                        let x = m.names[m.sorted[j as int] as int];
                        let y = m.names[m.sorted[k] as int];
                        lemma_lt_trichotomy(x, p@);
                        assert(text_lt(x, y));
                        lemma_prefix_between(p@, x, y);
                    }
                }
            }
            assert(m.range_at(prefix@, start as int, r@.len() as int));
        }
        r
    }

    /// The id of the entry named `name`, if there is one.
    pub fn id(&self, name: &str) -> (r: Option<Id<K>>)
        ensures
            self@.wf(),
            match r {
                Some(id) => id@ < self@.n() && self@.names[id@ as int] == name@ && forall|j: int|
                    0 <= j < self@.n() && #[trigger] self@.names[j] == name@ ==> j == id@,
                None => !self@.names.contains(name@),
            },
    {
        proof {
            use_type_invariant(self);
            lemma_names_distinct(self@);
        }
        let key = str_chars(name);
        let n = self.data.sorted.len();
        let ghost m = self@;
        let mut lo: usize = 0;
        let mut hi: usize = n;
        while lo < hi
            invariant
                0 <= lo <= hi <= n,
                n == m.n(),
                m == self@,
                m.wf(),
                key@ == name@,
                forall|k: int| 0 <= k < lo ==> text_lt(#[trigger] m.names[m.sorted[k] as int], name@),
                forall|k: int| hi <= k < n ==> text_lt(name@, #[trigger] m.names[m.sorted[k] as int]),
            decreases hi - lo,
        {
            let mid = lo + (hi - lo) / 2;
            let o = self.data.sorted[mid];
            proof {
                assert(m.sorted[mid as int] < m.n());
                assert(m.names[o as int] == self.data.names@[o as int]@);
            }
            match compare_texts(self.data.names[o as usize].chars(), &key) {
                Rank::Before => {
                    proof {
                        assert forall|k: int| 0 <= k < mid + 1 implies text_lt(
                            #[trigger] m.names[m.sorted[k] as int],
                            name@,
                        ) by {
                            if k < mid {
                                lemma_lt_transitive(m.names[m.sorted[k] as int], m.names[o as int], name@);
                            }
                        }
                    }
                    lo = mid + 1;
                },
                Rank::After => {
                    proof {
                        lemma_lt_trichotomy(m.names[o as int], name@);
                        assert forall|k: int| mid <= k < n implies text_lt(
                            name@,
                            #[trigger] m.names[m.sorted[k] as int],
                        ) by {
                            if k > mid {
                                lemma_lt_transitive(name@, m.names[o as int], m.names[m.sorted[k] as int]);
                            }
                        }
                    }
                    hi = mid;
                },
                Rank::Same => {
                    proof {
                        lemma_names_distinct(m);
                    }
                    return Some(Id::from_raw(o));
                },
            }
        }
        proof {
            assert forall|o: int| 0 <= o < m.n() implies m.names[o] != name@ by {
                crate::counting::lemma_perm_onto(m.sorted, m.n(), o as u32);
                let k = choose|k: int| 0 <= k < m.sorted.len() && m.sorted[k] == o as u32;
                if k < lo {
                    lemma_lt_trichotomy(m.names[o], name@);
                } else {
                    lemma_lt_trichotomy(name@, m.names[o]);
                }
            }
        }
        None
    }

    /// The name of entry `id`, if there is one.
    pub fn name(&self, id: Id<K>) -> (r: Option<&Name>)
        ensures
            id@ < self@.n() ==> (r matches Some(x) && x@ == self@.names[id@ as int]),
            id@ >= self@.n() ==> r is None,
    {
        proof {
            use_type_invariant(self);
        }
        let i = id.index();
        if i < self.data.names.len() {
            Some(&self.data.names[i])
        } else {
            None
        }
    }

    /// The names, by id.
    pub fn names(&self) -> (r: &[Name])
        ensures
            r@.map_values(|n: Name| n@) == self@.names,
    {
        proof {
            use_type_invariant(self);
        }
        self.data.names.as_slice()
    }

    /// The entries with their names, by id.
    pub fn iter(&self) -> (r: Vec<(Id<K>, &Name)>)
        ensures
            r@.len() == self@.n(),
            forall|k: int| 0 <= k < r@.len() ==> (#[trigger] r@[k]).0@ == k && r@[k].1@ == self@.names[k],
    {
        proof {
            use_type_invariant(self);
        }
        let n = self.data.names.len();
        let mut r: Vec<(Id<K>, &Name)> = Vec::new();
        let mut k: usize = 0;
        while k < n
            invariant
                k <= n,
                n == self@.n(),
                n <= u32::MAX,
                n == self.data.names@.len(),
                r@.len() == k,
                forall|x: int| 0 <= x < k ==> (#[trigger] r@[x]).0@ == x && r@[x].1@ == self@.names[x],
            decreases n - k,
        {
            proof {
                assert(self@.names[k as int] == self.data.names@[k as int]@);
            }
            r.push((Id::from_raw(k as u32), &self.data.names[k]));
            k = k + 1;
        }
        r
    }

    /// Where each name of `palette` is in this registry, and which names
    /// are missing.
    pub fn remap(&self, palette: &[Name]) -> (r: Remap<K>)
        ensures
            r.slots@.len() == palette@.len(),
            forall|i: int|
                0 <= i < palette@.len() ==> match #[trigger] r.slots@[i] {
                    Some(id) => id@ < self@.n() && self@.names[id@ as int] == palette@[i]@,
                    None => !self@.names.contains(palette@[i]@),
                },
            r.missing@.map_values(|p: (usize, Name)| (p.0, p.1@)) == unresolved(
                self@.names,
                palette@.map_values(|n: Name| n@),
                palette@.len(),
            ),
    {
        proof {
            use_type_invariant(self);
        }
        let ghost pal = palette@.map_values(|n: Name| n@);
        let mut slots: Vec<Option<Id<K>>> = Vec::new();
        let mut missing: Vec<(usize, Name)> = Vec::new();
        let mut i: usize = 0;
        while i < palette.len()
            invariant
                i <= palette@.len(),
                self@.wf(),
                pal == palette@.map_values(|n: Name| n@),
                slots@.len() == i,
                forall|x: int|
                    0 <= x < i ==> match #[trigger] slots@[x] {
                        Some(id) => id@ < self@.n() && self@.names[id@ as int] == palette@[x]@,
                        None => !self@.names.contains(palette@[x]@),
                    },
                missing@.map_values(|p: (usize, Name)| (p.0, p.1@)) == unresolved(self@.names, pal, i as nat),
            decreases palette@.len() - i,
        {
            let name = &palette[i];
            let found = self.id(name.as_str());
            let ghost before = missing@;
            if found.is_none() {
                missing.push((i, name.clone()));
                proof {
                    assert(missing@.map_values(|p: (usize, Name)| (p.0, p.1@)) =~= before.map_values(
                        |p: (usize, Name)| (p.0, p.1@),
                    ).push((i, pal[i as int])));
                }
            }
            slots.push(found);
            i = i + 1;
        }
        Remap { slots, missing }
    }

    /// Whether a column with key `key` exists.
    pub(crate) fn has_column(&self, key: &TypeId) -> (r: bool)
        ensures
            r == self@.keys.contains(*key),
    {
        proof {
            use_type_invariant(self);
        }
        let mut j: usize = 0;
        while j < self.data.columns.len()
            invariant
                j <= self.data.columns@.len(),
                forall|x: int| 0 <= x < j ==> self@.keys[x] != *key,
            decreases self.data.columns@.len() - j,
        {
            proof {
                assert(self@.keys[j as int] == self.data.columns@[j as int].0);
            }
            if same_type(&self.data.columns[j].0, key) {
                proof {
                    assert(self@.keys[j as int] == *key);
                }
                return true;
            }
            j = j + 1;
        }
        false
    }

    /// The column of facet `C`, if it was declared or given values.
    pub fn column<C: Facet>(&self) -> (r: Option<&Column<K, C>>)
        ensures
            r is Some ==> self@.keys.len() > 0,
    {
        proof {
            use_type_invariant(self);
        }
        let key = type_key::<C>();
        let mut j: usize = 0;
        while j < self.data.columns.len()
            invariant
                j <= self.data.columns@.len(),
            decreases self.data.columns@.len() - j,
        {
            if same_type(&self.data.columns[j].0, &key) {
                return self.data.columns[j].1.downcast_ref::<Column<K, C>>();
            }
            j = j + 1;
        }
        None
    }
}

/// The ids of a list of `(id, value)` pairs.
pub open spec fn pair_ids<K, C>(vs: Seq<(Id<K>, C)>) -> Seq<u32> {
    vs.map_values(|p: (Id<K>, C)| p.0@)
}

/// The ids of `ids` below `n`, in order.
pub open spec fn in_range(ids: Seq<u32>, n: nat) -> Seq<u32>
    decreases ids.len(),
{
    if ids.len() == 0 {
        Seq::empty()
    } else {
        let r = in_range(ids.drop_last(), n);
        if ids.last() < n {
            r.push(ids.last())
        } else {
            r
        }
    }
}

/// One `InsertOutOfRange` for each id of `ids` not below `n`, in order.
pub open spec fn out_of_range_errors(ids: Seq<u32>, component: &'static str, n: nat) -> Seq<ErrView>
    decreases ids.len(),
{
    if ids.len() == 0 {
        Seq::empty()
    } else {
        let r = out_of_range_errors(ids.drop_last(), component, n);
        if ids.last() < n {
            r
        } else {
            r.push(BuildErrorKind::InsertOutOfRange { component, id: ids.last(), len: n as u32 })
        }
    }
}

/// Every problem of adding a column with key `key` and values for `ids`:
/// a column with that key already exists, ids past the last entry, and the
/// duplicate and missing values.
pub open spec fn insert_errors(m: RegistryModel, key: TypeId, ids: Seq<u32>, component: &'static str, storage: StorageKind) -> Seq<ErrView> {
    (if m.keys.contains(key) {
        seq![BuildErrorKind::DuplicateColumn { component }]
    } else {
        Seq::empty()
    }) + out_of_range_errors(ids, component, m.n()) + value_errors(in_range(ids, m.n()), m.names, component, storage)
}

proof fn lemma_in_range_bound(ids: Seq<u32>, n: nat)
    ensures
        forall|k: int| 0 <= k < in_range(ids, n).len() ==> #[trigger] in_range(ids, n)[k] < n,
    decreases ids.len(),
{
    if ids.len() > 0 {
        let r = in_range(ids.drop_last(), n);
        lemma_in_range_bound(ids.drop_last(), n);
        assert forall|k: int| 0 <= k < in_range(ids, n).len() implies #[trigger] in_range(ids, n)[k] < n by {
            if k < r.len() {
                assert(in_range(ids, n)[k] == r[k]);
            }
        }
    }
}

/// Splits `values` into the ids below `n` with their values, appending an
/// error for each id past the last entry.
fn split_in_range<K, C>(values: Vec<(Id<K>, C)>, n: usize, component: &'static str, errors: &mut Vec<BuildErrorKind<Name>>) -> (r: (Vec<u32>, Vec<C>))
    requires
        n <= u32::MAX,
    ensures
        r.0@ == in_range(pair_ids(values@), n as nat),
        r.1@.len() == r.0@.len(),
        errs_view(final(errors)@) == errs_view(old(errors)@) + out_of_range_errors(pair_ids(values@), component, n as nat),
{
    let ghost ids_s = pair_ids(values@);
    let ghost head = errs_view(errors@);
    let total = values.len();
    let mut rest = values;
    let mut rev: Vec<(Id<K>, C)> = Vec::new();
    let ghost vs = rest@;
    while rest.len() > 0
        invariant
            rest@.len() + rev@.len() == total,
            total == vs.len(),
            forall|k: int| 0 <= k < rest@.len() ==> #[trigger] rest@[k] == vs[k],
            forall|k: int| 0 <= k < rev@.len() ==> #[trigger] rev@[k] == vs[total - 1 - k],
        decreases rest@.len(),
    {
        let p = rest.pop().unwrap();
        rev.push(p);
    }
    let mut ids: Vec<u32> = Vec::new();
    let mut vals: Vec<C> = Vec::new();
    let mut i: usize = 0;
    proof {
        assert(ids_s.take(0) =~= Seq::<u32>::empty());
        assert(errs_view(errors@) =~= head + out_of_range_errors(ids_s.take(0), component, n as nat));
    }
    while rev.len() > 0
        invariant
            i + rev@.len() == total,
            total == vs.len(),
            ids_s == pair_ids(vs),
            n <= u32::MAX,
            forall|k: int| 0 <= k < rev@.len() ==> #[trigger] rev@[k] == vs[total - 1 - k],
            ids@ == in_range(ids_s.take(i as int), n as nat),
            vals@.len() == ids@.len(),
            errs_view(errors@) == head + out_of_range_errors(ids_s.take(i as int), component, n as nat),
        decreases rev@.len(),
    {
        let (id, v) = rev.pop().unwrap();
        proof {
            assert(ids_s.take(i as int + 1).drop_last() =~= ids_s.take(i as int));
            assert(ids_s[i as int] == id@);
        }
        let raw = id.raw();
        if raw as usize >= n {
            let err = BuildErrorKind::InsertOutOfRange { component, id: raw, len: n as u32 };
            proof {
                lemma_errs_push(errors@, err);
            }
            errors.push(err);
        } else {
            ids.push(raw);
            vals.push(v);
        }
        i = i + 1;
    }
    proof {
        assert(ids_s.take(total as int) =~= ids_s);
    }
    (ids, vals)
}

/// Without missing-value errors, every id below `k` has a value.
proof fn lemma_no_missing(staged: Seq<u32>, by_id: Seq<Seq<char>>, component: &'static str, k: nat)
    requires
        missing_errors(staged, by_id, component, k).len() == 0,
    ensures
        forall|id: int| 0 <= id < k ==> #[trigger] occurrences(staged, id as u32) > 0,
    decreases k,
{
    if k > 0 {
        lemma_no_missing(staged, by_id, component, (k - 1) as nat);
    }
}

proof fn lemma_occurs(s: Seq<u32>, id: u32)
    ensures
        occurrences(s, id) > 0 ==> exists|j: int| 0 <= j < s.len() && #[trigger] s[j] == id,
    decreases s.len(),
{
    if s.len() > 0 {
        lemma_occurs(s.drop_last(), id);
        if occurrences(s.drop_last(), id) > 0 {
            let j = choose|j: int| 0 <= j < s.drop_last().len() && #[trigger] s.drop_last()[j] == id;
            assert(s[j] == id);
        } else if s.last() == id {
            assert(s[s.len() - 1] == id);
        }
    }
}

impl<K: Send + Sync + 'static> RegistryInit<K, Name> {
    /// Adds a column with key `key` holding the given values.
    #[verifier::spinoff_prover]
    #[verifier::rlimit(40)]
    pub(crate) fn insert_column_with<C: Facet>(&mut self, key: TypeId, values: Vec<(Id<K>, C)>) -> (r: Result<(), BuildError<Name>>)
        requires
            old(self).model().wf(),
        ensures
            final(self).map() == old(self).map(),
            final(self).model().wf(),
            ({
                let errs = insert_errors(
                    old(self).model(),
                    key,
                    pair_ids(values@),
                    C::NAME,
                    kind_of(C::STORAGE),
                );
                match r {
                    Ok(_) => errs.len() == 0 && final(self).model() == (RegistryModel {
                        keys: old(self).model().keys.push(key),
                        layouts: old(self).model().layouts.push(
                            last_layout(in_range(pair_ids(values@), old(self).model().n()), old(self).model().n()),
                        ),
                        ..old(self).model()
                    }),
                    Err(e) => errs.len() > 0 && e@ == errs && final(self).model() == old(self).model(),
                }
            }),
    {
        let ghost m = self.registry@;
        let ghost ids_s = pair_ids(values@);
        let n = self.registry.data.names.len();
        let component = C::NAME;
        let mut errors: Vec<BuildErrorKind<Name>> = Vec::new();
        let present = self.registry.has_column(&key);
        proof {
            use_type_invariant(&self.registry);
        }
        if present {
            errors.push(BuildErrorKind::DuplicateColumn { component });
        }
        proof {
            assert(errs_view(errors@) =~= (if m.keys.contains(key) {
                seq![BuildErrorKind::DuplicateColumn { component }]
            } else {
                Seq::<ErrView>::empty()
            }));
        }
        let (ids, vals) = split_in_range(values, n, component, &mut errors);
        proof {
            lemma_in_range_bound(ids_s, n as nat);
        }
        let layout = check_values(&ids, &self.registry.data.names, component, storage_kind::<C>(), &mut errors);
        proof {
            assert(names_view(self.registry.data.names@) == m.names);
            assert(errs_view(errors@) =~= insert_errors(m, key, ids_s, component, kind_of(C::STORAGE)));
        }
        if errors.len() == 0 {
            proof {
                let staged = ids@;
                assert(layout_fits(layout@, vals@.len(), kind_of(C::STORAGE))) by {
                    if kind_of(C::STORAGE) == StorageKind::Required {
                        assert(missing_errors(staged, m.names, component, n as nat).len() == 0);
                        lemma_no_missing(staged, m.names, component, n as nat);
                        assert forall|id: int| 0 <= id < layout@.len() implies (#[trigger] layout@[id]) is Some by {
                            assert(occurrences(staged, id as u32) > 0);
                            lemma_occurs(staged, id as u32);
                            let j = choose|j: int| 0 <= j < staged.len() && #[trigger] staged[j] == id as u32;
                        }
                    }
                }
            }
            match column_from_layout::<K, C>(vals, &layout) {
                Some(col) => {
                    let mut reg = Registry::empty();
                    core::mem::swap(&mut reg, &mut self.registry);
                    let ghost placed = col.placement()->0;
                    self.registry = reg.with_column(key, AnyBox::new(col), Ghost(placed));
                    Ok(())
                },
                None => {
                    proof {
                        assert(false);
                    }
                    Err(BuildError::new(errors))
                },
            }
        } else {
            Err(BuildError::new(errors))
        }
    }

    /// Adds a column for facet `C` with the given values; fails, leaving the
    /// registry as it was, when a column for `C` exists, an id is past the
    /// last entry, an entry gets two values, or an entry of a required facet
    /// gets none.
    pub fn insert_column<C: Facet>(&mut self, values: Vec<(Id<K>, C)>) -> (r: Result<(), BuildError<Name>>)
        ensures
            final(self).map() == old(self).map(),
            final(self).model().wf(),
            exists|key: TypeId|
                {
                    let errs = #[trigger] insert_errors(
                        old(self).model(),
                        key,
                        pair_ids(values@),
                        C::NAME,
                        kind_of(C::STORAGE),
                    );
                    match r {
                        Ok(_) => errs.len() == 0 && final(self).model() == (RegistryModel {
                            keys: old(self).model().keys.push(key),
                            layouts: old(self).model().layouts.push(
                                last_layout(in_range(pair_ids(values@), old(self).model().n()), old(self).model().n()),
                            ),
                            ..old(self).model()
                        }),
                        Err(e) => errs.len() > 0 && e@ == errs && final(self).model() == old(self).model(),
                    }
                },
    {
        proof {
            use_type_invariant(&self.registry);
        }
        let key = type_key::<C>();
        let ghost ids_s = pair_ids(values@);
        let r = self.insert_column_with(key, values);
        proof {
            let errs = insert_errors(old(self).model(), key, ids_s, C::NAME, kind_of(C::STORAGE));
        }
        r
    }
}

impl<K> core::ops::Deref for RegistryInit<K, Name> {
    type Target = Registry<K, Name>;

    fn deref(&self) -> (r: &Registry<K, Name>)
        ensures
            *r == self.inner(),
            r@ == self.model(),
    {
        &self.registry
    }
}

} // verus!
