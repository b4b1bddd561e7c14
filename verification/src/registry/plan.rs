//! What building a registry computes, as spec functions over the builder's
//! contents, and the facts that make the construction sound.
use vstd::prelude::*;
use crate::counting::{count_empty, count_empty_at, ids_upto, is_perm, lemma_count_fill, lemma_count_perm, lemma_perm_onto};
use crate::registry::error::BuildErrorKind;
use crate::order::text_lt;
use crate::facet::StorageKind;
use crate::state::{PropertyDeclaration, PropertySlot};
use crate::registry::table::{RegistryModel, radix_ok, slot_product};
use core::any::TypeId;

verus! {

broadcast use vstd::seq_lib::group_seq_properties;

/// Build errors, with each entry given by its name.
pub type ErrView = BuildErrorKind<Seq<char>>;

/// Outcome of resolving pins: the slot of each pinned entry (by provisional
/// index), the entry owning each pinned slot, and the pin errors.
pub struct PinPlan {
    pub slot_of: Seq<Option<u32>>,
    pub owner_of: Seq<Option<u32>>,
    pub errors: Seq<ErrView>,
}

/// Resolves `pins` (pairs of provisional index and requested slot) in order.
/// A pin of an entry that is already pinned is a `DoublePin`; a slot past the
/// last id is `PinOutOfRange`; a slot already taken is a `PinConflict`; the
/// others are granted.
pub open spec fn pin_plan(pins: Seq<(u32, u32)>, names: Seq<Seq<char>>) -> PinPlan
    decreases pins.len(),
{
    let n = names.len();
    if pins.len() == 0 {
        PinPlan {
            slot_of: Seq::new(n, |i: int| None::<u32>),
            owner_of: Seq::new(n, |i: int| None::<u32>),
            errors: Seq::empty(),
        }
    } else {
        let p = pin_plan(pins.drop_last(), names);
        let i = pins.last().0;
        let slot = pins.last().1;
        if p.slot_of[i as int] is Some {
            PinPlan {
                errors: p.errors.push(
                    BuildErrorKind::DoublePin {
                        entry: names[i as int],
                        first: p.slot_of[i as int]->0,
                        second: slot,
                    },
                ),
                ..p
            }
        } else if slot >= n {
            PinPlan {
                errors: p.errors.push(
                    BuildErrorKind::PinOutOfRange { entry: names[i as int], slot, len: n as u32 },
                ),
                ..p
            }
        } else if p.owner_of[slot as int] is Some {
            PinPlan {
                errors: p.errors.push(
                    BuildErrorKind::PinConflict {
                        first: names[p.owner_of[slot as int]->0 as int],
                        second: names[i as int],
                        slot,
                    },
                ),
                ..p
            }
        } else {
            PinPlan {
                slot_of: p.slot_of.update(i as int, Some(slot)),
                owner_of: p.owner_of.update(slot as int, Some(i)),
                errors: p.errors,
            }
        }
    }
}

/// The two tables of a pin plan are inverse to each other.
pub open spec fn pins_consistent(slot_of: Seq<Option<u32>>, owner_of: Seq<Option<u32>>, n: nat) -> bool {
    &&& slot_of.len() == n
    &&& owner_of.len() == n
    &&& forall|o: int|
        #![trigger slot_of[o]]
        0 <= o < n && slot_of[o] is Some ==> {
            let s = slot_of[o]->0;
            s < n && owner_of[s as int] == Some(o as u32)
        }
    &&& forall|s: int|
        #![trigger owner_of[s]]
        0 <= s < n && owner_of[s] is Some ==> {
            let o = owner_of[s]->0;
            o < n && slot_of[o as int] == Some(s as u32)
        }
    &&& count_empty(slot_of) == count_empty(owner_of)
}

/// Every pin names an existing entry.
pub open spec fn pins_in_range(pins: Seq<(u32, u32)>, n: nat) -> bool {
    forall|k: int| 0 <= k < pins.len() ==> (#[trigger] pins[k]).0 < n
}

pub proof fn lemma_pin_plan(pins: Seq<(u32, u32)>, names: Seq<Seq<char>>)
    requires
        pins_in_range(pins, names.len()),
        names.len() <= u32::MAX,
    ensures
        pins_consistent(pin_plan(pins, names).slot_of, pin_plan(pins, names).owner_of, names.len()),
    decreases pins.len(),
{
    let n = names.len();
    if pins.len() == 0 {
        let p = pin_plan(pins, names);
        assert(p.slot_of =~= p.owner_of);
    } else {
        assert(pins_in_range(pins.drop_last(), n)) by {
            assert forall|k: int| 0 <= k < pins.drop_last().len() implies (
            #[trigger] pins.drop_last()[k]).0 < n by {
                assert(pins.drop_last()[k] == pins[k]);
            }
        }
        lemma_pin_plan(pins.drop_last(), names);
        let p = pin_plan(pins.drop_last(), names);
        let i = pins.last().0;
        let slot = pins.last().1;
        assert(i < n);
        if p.slot_of[i as int] is None && slot < n && p.owner_of[slot as int] is None {
            lemma_count_fill(p.slot_of, i as int, slot);
            lemma_count_fill(p.owner_of, slot as int, i);
        }
    }
}

/// The empty slots of `owner_of[..k]`, in increasing order.
pub open spec fn free_slots(owner_of: Seq<Option<u32>>, k: nat) -> Seq<u32>
    decreases k,
{
    if k == 0 {
        Seq::empty()
    } else {
        let f = free_slots(owner_of, (k - 1) as nat);
        if owner_of[k - 1] is None {
            f.push((k - 1) as u32)
        } else {
            f
        }
    }
}

pub proof fn lemma_free_slots(owner_of: Seq<Option<u32>>, k: nat)
    requires
        k <= owner_of.len(),
        owner_of.len() <= u32::MAX + 1,
    ensures
        free_slots(owner_of, k).len() == count_empty_at(ids_upto(k), owner_of),
        forall|j: int|
            0 <= j < free_slots(owner_of, k).len() ==> {
                let s = #[trigger] free_slots(owner_of, k)[j];
                &&& s < k
                &&& owner_of[s as int] is None
            },
        forall|a: int, b: int|
            0 <= a < b < free_slots(owner_of, k).len() ==> free_slots(owner_of, k)[a]
                < free_slots(owner_of, k)[b],
    decreases k,
{
    if k > 0 {
        lemma_free_slots(owner_of, (k - 1) as nat);
        assert(ids_upto(k).drop_last() =~= ids_upto((k - 1) as nat));
    }
}

/// Number of unpinned entries among the first `k` in `order`.
pub open spec fn unpinned_before(order: Seq<u32>, slot_of: Seq<Option<u32>>, k: int) -> nat {
    count_empty_at(order.take(k), slot_of)
}

/// The id of each entry, listed in name order: a pinned entry gets its
/// slot, and the unpinned ones get the free slots in increasing order.
pub open spec fn sorted_ids(order: Seq<u32>, slot_of: Seq<Option<u32>>, owner_of: Seq<Option<u32>>) -> Seq<u32> {
    Seq::new(
        order.len(),
        |k: int|
            match slot_of[order[k] as int] {
                Some(s) => s,
                None => free_slots(owner_of, owner_of.len())[unpinned_before(order, slot_of, k) as int],
            },
    )
}

pub proof fn lemma_unpinned_step(order: Seq<u32>, slot_of: Seq<Option<u32>>, k: int)
    requires
        0 <= k < order.len(),
    ensures
        unpinned_before(order, slot_of, k + 1) == unpinned_before(order, slot_of, k) + if slot_of[order[k] as int] is None {
            1nat
        } else {
            0nat
        },
{
    assert(order.take(k + 1).drop_last() =~= order.take(k));
}

pub proof fn lemma_unpinned_mono(order: Seq<u32>, slot_of: Seq<Option<u32>>, a: int, b: int)
    requires
        0 <= a <= b <= order.len(),
    ensures
        unpinned_before(order, slot_of, a) <= unpinned_before(order, slot_of, b),
    decreases b - a,
{
    if a < b {
        lemma_unpinned_step(order, slot_of, b - 1);
        lemma_unpinned_mono(order, slot_of, a, b - 1);
    }
}

/// Resolving the pins and handing out the free slots gives every entry a
/// distinct id below `n`, and so a permutation of `0..n`.
pub proof fn lemma_sorted_ids_perm(order: Seq<u32>, slot_of: Seq<Option<u32>>, owner_of: Seq<Option<u32>>, n: nat)
    requires
        is_perm(order, n),
        pins_consistent(slot_of, owner_of, n),
        n <= u32::MAX,
    ensures
        is_perm(sorted_ids(order, slot_of, owner_of), n),
        forall|k: int|
            0 <= k < n && slot_of[order[k] as int] is None ==> #[trigger] unpinned_before(order, slot_of, k)
                < free_slots(owner_of, n).len(),
{
    let ids = sorted_ids(order, slot_of, owner_of);
    let frees = free_slots(owner_of, n);
    lemma_free_slots(owner_of, n);
    lemma_count_perm(order, n, slot_of);
    assert(order.take(n as int) =~= order);
    assert forall|k: int|
        0 <= k < n && slot_of[order[k] as int] is None implies #[trigger] unpinned_before(order, slot_of, k)
        < frees.len() by {
        lemma_unpinned_step(order, slot_of, k);
        lemma_unpinned_mono(order, slot_of, k + 1, n as int);
    }
    assert forall|k: int| 0 <= k < ids.len() implies ids[k] < n by {
        if slot_of[order[k] as int] is None {
            let u = unpinned_before(order, slot_of, k);
            assert(frees[u as int] < n);
        }
    }
    assert forall|k1: int, k2: int|
        0 <= k1 < ids.len() && 0 <= k2 < ids.len() && k1 != k2 implies ids[k1] != ids[k2] by {
        let o1 = order[k1];
        let o2 = order[k2];
        assert(o1 != o2);
        match (slot_of[o1 as int], slot_of[o2 as int]) {
            (Some(s1), Some(s2)) => {
                assert(owner_of[s1 as int] == Some(o1));
                assert(owner_of[s2 as int] == Some(o2));
            },
            (None, None) => {
                let (a, b) = if k1 < k2 {
                    (k1, k2)
                } else {
                    (k2, k1)
                };
                lemma_unpinned_step(order, slot_of, a);
                lemma_unpinned_mono(order, slot_of, a + 1, b);
                let ua = unpinned_before(order, slot_of, a);
                let ub = unpinned_before(order, slot_of, b);
                assert(frees[ua as int] < frees[ub as int]);
            },
            (Some(s1), None) => {
                let u = unpinned_before(order, slot_of, k2);
                assert(owner_of[frees[u as int] as int] is None);
                assert(owner_of[s1 as int] is Some);
            },
            (None, Some(s2)) => {
                let u = unpinned_before(order, slot_of, k1);
                assert(owner_of[frees[u as int] as int] is None);
                assert(owner_of[s2 as int] is Some);
            },
        }
    }
}


/// Where `o` sits in `order`.
pub open spec fn position(order: Seq<u32>, o: u32) -> int {
    choose|k: int| 0 <= k < order.len() && order[k] == o
}

pub proof fn lemma_position(order: Seq<u32>, n: nat, k: int)
    requires
        is_perm(order, n),
        0 <= k < n,
    ensures
        position(order, order[k]) == k,
{
    assert(order[k] == order[k]);
}

pub proof fn lemma_position_of(order: Seq<u32>, n: nat, o: u32)
    requires
        is_perm(order, n),
        o < n,
        n <= u32::MAX + 1,
    ensures
        0 <= position(order, o) < n,
        order[position(order, o)] == o,
{
    lemma_perm_onto(order, n, o);
}

/// The final id of each entry, by provisional index: the entry at `order[k]`
/// gets `ids[k]`.
pub open spec fn perm_of(order: Seq<u32>, ids: Seq<u32>) -> Seq<u32> {
    Seq::new(order.len(), |o: int| ids[position(order, o as u32)])
}

/// The provisional index of the entry with final id `id`.
pub open spec fn old_of(order: Seq<u32>, ids: Seq<u32>, id: u32) -> u32 {
    order[position(ids, id)]
}

pub proof fn lemma_perm_of(order: Seq<u32>, ids: Seq<u32>, n: nat)
    requires
        is_perm(order, n),
        is_perm(ids, n),
        n <= u32::MAX,
    ensures
        is_perm(perm_of(order, ids), n),
        forall|k: int| 0 <= k < n ==> #[trigger] perm_of(order, ids)[order[k] as int] == ids[k],
        forall|o: int|
            0 <= o < n ==> old_of(order, ids, #[trigger] perm_of(order, ids)[o]) == o,
        forall|id: u32| id < n ==> #[trigger] old_of(order, ids, id) < n,
        forall|id: u32|
            id < n ==> perm_of(order, ids)[#[trigger] old_of(order, ids, id) as int] == id,
{
    let perm = perm_of(order, ids);
    assert forall|k: int| 0 <= k < n implies #[trigger] perm[order[k] as int] == ids[k] by {
        lemma_position(order, n, k);
    }
    assert forall|o: int| 0 <= o < n implies perm[o] < n && old_of(order, ids, #[trigger] perm[o]) == o by {
        lemma_position_of(order, n, o as u32);
        let k = position(order, o as u32);
        lemma_position(ids, n, k);
    }
    assert forall|o1: int, o2: int|
        0 <= o1 < n && 0 <= o2 < n && o1 != o2 implies perm[o1] != perm[o2] by {
        lemma_position_of(order, n, o1 as u32);
        lemma_position_of(order, n, o2 as u32);
    }
    assert forall|id: u32| id < n implies #[trigger] old_of(order, ids, id) < n && perm_of(order, ids)[old_of(order, ids, id) as int] == id by {
        lemma_position_of(ids, n, id);
        let k = position(ids, id);
        lemma_position(order, n, k);
    }
}

/// Names by final id.
pub open spec fn names_by_id(names: Seq<Seq<char>>, order: Seq<u32>, ids: Seq<u32>) -> Seq<Seq<char>> {
    Seq::new(names.len(), |id: int| names[old_of(order, ids, id as u32) as int])
}

/// What building knows of one facet: its type key, label and storage kind,
/// and the provisional index of the entry of each staged value, in staging
/// order.
pub struct StageView {
    pub key: TypeId,
    pub component: &'static str,
    pub storage: StorageKind,
    pub owners: Seq<u32>,
}

/// How many times `id` occurs in `s`.
pub open spec fn occurrences(s: Seq<u32>, id: u32) -> nat
    decreases s.len(),
{
    if s.len() == 0 {
        0
    } else {
        occurrences(s.drop_last(), id) + if s.last() == id {
            1nat
        } else {
            0nat
        }
    }
}

/// The final id of each staged value.
pub open spec fn staged_ids(owners: Seq<u32>, perm: Seq<u32>) -> Seq<u32> {
    owners.map_values(|o: u32| perm[o as int])
}

/// Position of the last value staged for `id`, if any.
pub open spec fn last_pos(staged: Seq<u32>, id: int) -> Option<usize>
    decreases staged.len(),
{
    if staged.len() == 0 {
        None
    } else if staged.last() == id {
        Some((staged.len() - 1) as usize)
    } else {
        last_pos(staged.drop_last(), id)
    }
}

/// The layout of a column of `n` entries whose values were staged for the
/// ids `staged`: for each id, the position of the last value staged for it.
pub open spec fn last_layout(staged: Seq<u32>, n: nat) -> Seq<Option<usize>> {
    Seq::new(n, |id: int| last_pos(staged, id))
}

/// `last_pos` is the last position holding `id`, and `None` when no
/// position holds it.
pub proof fn lemma_last_pos(staged: Seq<u32>, id: int)
    requires
        staged.len() <= usize::MAX,
    ensures
        match last_pos(staged, id) {
            Some(j) => j < staged.len() && staged[j as int] == id && forall|j2: int|
                j < j2 < staged.len() ==> staged[j2] != id,
            None => forall|j2: int| 0 <= j2 < staged.len() ==> staged[j2] != id,
        },
    decreases staged.len(),
{
    if staged.len() > 0 && staged.last() == id {
        assert(last_pos(staged, id) == Some((staged.len() - 1) as usize));
        assert(staged[staged.len() - 1] == id);
    } else if staged.len() > 0 {
        lemma_last_pos(staged.drop_last(), id);
        if let Some(j) = last_pos(staged.drop_last(), id) {
            assert(staged[j as int] == staged.drop_last()[j as int]);
            assert forall|j2: int| j < j2 < staged.len() implies staged[j2] != id by {
                if j2 < staged.len() - 1 {
                    assert(staged[j2] == staged.drop_last()[j2]);
                }
            }
        } else {
            assert forall|j2: int| 0 <= j2 < staged.len() implies staged[j2] != id by {
                if j2 < staged.len() - 1 {
                    assert(staged[j2] == staged.drop_last()[j2]);
                }
            }
        }
    }
}

/// A layout that gives each id its last staged position is `last_layout`.
pub proof fn lemma_last_layout_unique(layout: Seq<Option<usize>>, staged: Seq<u32>)
    requires
        staged.len() <= usize::MAX,
        forall|id: int|
            0 <= id < layout.len() ==> match #[trigger] layout[id] {
                Some(j) => {
                    &&& j < staged.len()
                    &&& staged[j as int] == id
                    &&& forall|j2: int| j < j2 < staged.len() ==> staged[j2] != id
                },
                None => forall|j2: int| 0 <= j2 < staged.len() ==> staged[j2] != id,
            },
    ensures
        layout == last_layout(staged, layout.len()),
{
    assert forall|id: int| 0 <= id < layout.len() implies layout[id] == #[trigger] last_layout(
        staged,
        layout.len(),
    )[id] by {
        lemma_last_pos(staged, id);
        match layout[id] {
            Some(j) => match last_pos(staged, id) {
                Some(k) => {
                    if j < k {
                        assert(staged[k as int] == id);
                    } else if k < j {
                        assert(staged[j as int] == id);
                    }
                },
                None => {
                    assert(staged[j as int] == id);
                },
            },
            None => match last_pos(staged, id) {
                Some(k) => {
                    assert(staged[k as int] == id);
                },
                None => {},
            },
        }
    }
    assert(layout =~= last_layout(staged, layout.len()));
}

/// `e` repeated `m` times.
pub open spec fn repeat(e: ErrView, m: nat) -> Seq<ErrView> {
    Seq::new(m, |i: int| e)
}

/// One `DuplicateComponent` for each extra value of each id below `k`, in
/// id order.
pub open spec fn duplicate_errors(staged: Seq<u32>, by_id: Seq<Seq<char>>, component: &'static str, k: nat) -> Seq<ErrView>
    decreases k,
{
    if k == 0 {
        Seq::empty()
    } else {
        let c = occurrences(staged, (k - 1) as u32);
        duplicate_errors(staged, by_id, component, (k - 1) as nat) + repeat(
            BuildErrorKind::DuplicateComponent { entry: by_id[k - 1], component },
            if c > 1 {
                (c - 1) as nat
            } else {
                0nat
            },
        )
    }
}

/// One `MissingComponent` for each id below `k` without a value, in id order.
pub open spec fn missing_errors(staged: Seq<u32>, by_id: Seq<Seq<char>>, component: &'static str, k: nat) -> Seq<ErrView>
    decreases k,
{
    if k == 0 {
        Seq::empty()
    } else {
        let rest = missing_errors(staged, by_id, component, (k - 1) as nat);
        if occurrences(staged, (k - 1) as u32) == 0 {
            rest.push(BuildErrorKind::MissingComponent { entry: by_id[k - 1], component })
        } else {
            rest
        }
    }
}

/// The errors of one facet: duplicates, then, for a required facet, missing
/// values.
pub open spec fn stage_errors(st: StageView, perm: Seq<u32>, by_id: Seq<Seq<char>>) -> Seq<ErrView> {
    value_errors(staged_ids(st.owners, perm), by_id, st.component, st.storage)
}

/// The errors of the values given to one facet, `staged[j]` being the id of
/// the `j`-th value: duplicates, then, for a required facet, missing values.
pub open spec fn value_errors(staged: Seq<u32>, by_id: Seq<Seq<char>>, component: &'static str, storage: StorageKind) -> Seq<ErrView> {
    let n = by_id.len();
    duplicate_errors(staged, by_id, component, n) + if storage == StorageKind::Required {
        missing_errors(staged, by_id, component, n)
    } else {
        Seq::empty()
    }
}

/// The errors of the first `k` facets, in order.
pub open spec fn stages_errors(stages: Seq<StageView>, perm: Seq<u32>, by_id: Seq<Seq<char>>, k: nat) -> Seq<ErrView>
    decreases k,
{
    if k == 0 {
        Seq::empty()
    } else {
        stages_errors(stages, perm, by_id, (k - 1) as nat) + stage_errors(stages[k - 1], perm, by_id)
    }
}

/// Property declarations kept per entry, and the duplicate declarations.
pub struct PropPlan {
    pub decls: Seq<Seq<PropertyDeclaration>>,
    pub errors: Seq<ErrView>,
}

/// Whether `ds` already declares a property with key `key`.
pub open spec fn declares(ds: Seq<PropertyDeclaration>, key: TypeId) -> bool {
    exists|j: int| 0 <= j < ds.len() && ds[j].id == key
}

/// Gathers property declarations per entry, in order; a second declaration
/// of the same property on an entry is a `DuplicateProperty`.
pub open spec fn prop_plan(props: Seq<(u32, PropertyDeclaration)>, names: Seq<Seq<char>>) -> PropPlan
    decreases props.len(),
{
    if props.len() == 0 {
        PropPlan { decls: Seq::new(names.len(), |i: int| Seq::empty()), errors: Seq::empty() }
    } else {
        let p = prop_plan(props.drop_last(), names);
        let i = props.last().0;
        let d = props.last().1;
        if declares(p.decls[i as int], d.id) {
            PropPlan {
                errors: p.errors.push(
                    BuildErrorKind::DuplicateProperty { entry: names[i as int], property: d.name },
                ),
                ..p
            }
        } else {
            PropPlan { decls: p.decls.update(i as int, p.decls[i as int].push(d)), errors: p.errors }
        }
    }
}

/// Product of the value counts of `ds[j..]`.
pub open spec fn suffix_product(ds: Seq<PropertyDeclaration>, j: int) -> nat
    decreases ds.len() - j,
{
    if j < 0 || j >= ds.len() {
        1
    } else {
        ds[j].count as nat * suffix_product(ds, j + 1)
    }
}

/// The number of states of an entry with these properties does not fit.
pub open spec fn too_many_states(ds: Seq<PropertyDeclaration>) -> bool {
    suffix_product(ds, 0) > u32::MAX
}

/// The number of states of an entry: one when its count overflowed.
pub open spec fn state_count_of(ds: Seq<PropertyDeclaration>) -> nat {
    if too_many_states(ds) {
        1
    } else {
        suffix_product(ds, 0)
    }
}

/// The slots of an entry: the last declared property varies fastest.
pub open spec fn slots_of(ds: Seq<PropertyDeclaration>) -> Seq<PropertySlot> {
    Seq::new(
        ds.len(),
        |j: int| PropertySlot { id: ds[j].id, count: ds[j].count, stride: suffix_product(ds, j + 1) as u32 },
    )
}

/// One `TooManyStates` for each entry below `k` (by provisional index)
/// whose state count does not fit.
pub open spec fn state_errors(decls: Seq<Seq<PropertyDeclaration>>, names: Seq<Seq<char>>, k: nat) -> Seq<ErrView>
    decreases k,
{
    if k == 0 {
        Seq::empty()
    } else {
        let rest = state_errors(decls, names, (k - 1) as nat);
        if too_many_states(decls[k - 1]) {
            rest.push(BuildErrorKind::TooManyStates { entry: names[k - 1] })
        } else {
            rest
        }
    }
}

/// First states of the entries, by final id, and the overflow errors.
pub struct BasesPlan {
    pub bases: Seq<u32>,
    pub errors: Seq<ErrView>,
}

/// Running sums of `counts[..k]`; an addition that overflows is skipped and
/// reported as `TooManyStatesTotal`.
pub open spec fn bases_plan(counts: Seq<nat>, by_id: Seq<Seq<char>>, k: nat) -> BasesPlan
    decreases k,
{
    if k == 0 {
        BasesPlan { bases: seq![0u32], errors: Seq::empty() }
    } else {
        let p = bases_plan(counts, by_id, (k - 1) as nat);
        let acc = p.bases.last();
        if acc + counts[k - 1] > u32::MAX {
            BasesPlan {
                bases: p.bases.push(acc),
                errors: p.errors.push(BuildErrorKind::TooManyStatesTotal { entry: by_id[k - 1] }),
            }
        } else {
            BasesPlan { bases: p.bases.push((acc + counts[k - 1]) as u32), errors: p.errors }
        }
    }
}


pub proof fn lemma_suffix_mono(ds: Seq<PropertyDeclaration>, a: int, b: int)
    requires
        0 <= a <= b <= ds.len(),
        forall|j: int| 0 <= j < ds.len() ==> (#[trigger] ds[j]).count > 0,
    ensures
        suffix_product(ds, b) <= suffix_product(ds, a),
        suffix_product(ds, a) >= 1,
    decreases b - a,
{
    if a < b {
        lemma_suffix_mono(ds, a + 1, b);
        let c = ds[a].count as nat;
        let p = suffix_product(ds, a + 1);
        assert(c * p >= p) by (nonlinear_arith)
            requires
                c >= 1,
                p >= 1,
        ;
    } else {
        lemma_suffix_positive(ds, a);
    }
}

pub proof fn lemma_suffix_positive(ds: Seq<PropertyDeclaration>, a: int)
    requires
        0 <= a <= ds.len(),
        forall|j: int| 0 <= j < ds.len() ==> (#[trigger] ds[j]).count > 0,
    ensures
        suffix_product(ds, a) >= 1,
    decreases ds.len() - a,
{
    if a < ds.len() {
        lemma_suffix_positive(ds, a + 1);
        let c = ds[a].count as nat;
        let p = suffix_product(ds, a + 1);
        assert(c * p >= 1) by (nonlinear_arith)
            requires
                c >= 1,
                p >= 1,
        ;
    }
}

/// The slots of an entry whose state count fits number its states in mixed
/// radix.
pub proof fn lemma_slots_radix(ds: Seq<PropertyDeclaration>)
    requires
        forall|j: int| 0 <= j < ds.len() ==> (#[trigger] ds[j]).count > 0,
        !too_many_states(ds),
    ensures
        radix_ok(slots_of(ds), state_count_of(ds)),
{
    let sl = slots_of(ds);
    assert forall|j: int| 0 <= j <= ds.len() implies slot_product(sl, j) == suffix_product(ds, j) by {
        lemma_slot_suffix(ds, j);
    }
    assert forall|j: int| 0 <= j < sl.len() implies (#[trigger] sl[j]).stride == slot_product(sl, j + 1) by {
        lemma_suffix_mono(ds, 0, j + 1);
    }
}

proof fn lemma_slot_suffix(ds: Seq<PropertyDeclaration>, j: int)
    requires
        0 <= j <= ds.len(),
    ensures
        slot_product(slots_of(ds), j) == suffix_product(ds, j),
    decreases ds.len() - j,
{
    if j < ds.len() {
        lemma_slot_suffix(ds, j + 1);
    }
}

/// Without `TooManyStates` errors, no entry has too many states.
pub proof fn lemma_state_errors_empty(decls: Seq<Seq<PropertyDeclaration>>, names: Seq<Seq<char>>, k: nat)
    requires
        state_errors(decls, names, k).len() == 0,
    ensures
        forall|o: int| 0 <= o < k ==> !too_many_states(#[trigger] decls[o]),
    decreases k,
{
    if k > 0 {
        lemma_state_errors_empty(decls, names, (k - 1) as nat);
    }
}

/// The running sums: without overflow errors each base is the previous one
/// plus the count.
pub proof fn lemma_bases_plan(counts: Seq<nat>, by_id: Seq<Seq<char>>, k: nat)
    ensures
        bases_plan(counts, by_id, k).bases.len() == k + 1,
        bases_plan(counts, by_id, k).bases[0] == 0,
        bases_plan(counts, by_id, k).errors.len() == 0 ==> forall|i: int|
            0 <= i < k ==> #[trigger] bases_plan(counts, by_id, k).bases[i + 1] == bases_plan(counts, by_id, k).bases[i]
                + counts[i],
    decreases k,
{
    if k > 0 {
        lemma_bases_plan(counts, by_id, (k - 1) as nat);
    }
}

/// Every declaration that the plan keeps has a nonzero count, and there is
/// one list per entry.
pub proof fn lemma_prop_plan_counts(props: Seq<(u32, PropertyDeclaration)>, names: Seq<Seq<char>>)
    requires
        forall|k: int| 0 <= k < props.len() ==> (#[trigger] props[k]).0 < names.len() && props[k].1.count > 0,
    ensures
        prop_plan(props, names).decls.len() == names.len(),
        forall|o: int, j: int|
            0 <= o < names.len() && 0 <= j < prop_plan(props, names).decls[o].len() ==> (
            #[trigger] prop_plan(props, names).decls[o][j]).count > 0,
    decreases props.len(),
{
    if props.len() > 0 {
        let pre = props.drop_last();
        assert forall|k: int| 0 <= k < pre.len() implies (#[trigger] pre[k]).0 < names.len() && pre[k].1.count > 0 by {
            assert(pre[k] == props[k]);
        }
        lemma_prop_plan_counts(pre, names);
        assert(props.last() == props[props.len() - 1]);
    }
}

/// What a registry builder holds.
pub struct BuilderView {
    /// Stable id of each entry, by provisional index (creation order).
    pub names: Seq<Seq<char>>,
    /// Provisional indices in name order.
    pub order: Seq<u32>,
    /// Pins, as (provisional index, requested id), in the order made.
    pub pins: Seq<(u32, u32)>,
    /// Property declarations, as (provisional index, declaration).
    pub props: Seq<(u32, PropertyDeclaration)>,
    /// Staged facets, in the order first used.
    pub stages: Seq<StageView>,
    /// Largest number of entries allowed, if any.
    pub cap: Option<u32>,
}

/// `order` lists the entries by strictly increasing name.
pub open spec fn sorted_by_name(names: Seq<Seq<char>>, order: Seq<u32>) -> bool {
    forall|a: int, c: int|
        0 <= a < c < order.len() ==> text_lt(
            #[trigger] names[order[a] as int],
            #[trigger] names[order[c] as int],
        )
}

/// Number of entries among the first `k` in `order` whose name sorts
/// before `name`.
pub open spec fn count_below(names: Seq<Seq<char>>, order: Seq<u32>, name: Seq<char>, k: int) -> nat
    decreases k,
{
    if k <= 0 || k > order.len() {
        0
    } else {
        count_below(names, order, name, k - 1) + if text_lt(names[order[k - 1] as int], name) {
            1nat
        } else {
            0nat
        }
    }
}

impl BuilderView {
    pub open spec fn n(self) -> nat {
        self.names.len()
    }

    pub open spec fn wf(self) -> bool {
        &&& self.n() <= u32::MAX
        &&& is_perm(self.order, self.n())
        &&& sorted_by_name(self.names, self.order)
        &&& pins_in_range(self.pins, self.n())
        &&& forall|k: int|
            0 <= k < self.props.len() ==> (#[trigger] self.props[k]).0 < self.n() && self.props[k].1.count
                > 0
        &&& forall|s: int, k: int|
            0 <= s < self.stages.len() && 0 <= k < self.stages[s].owners.len() ==> #[trigger] self.stages[s].owners[k]
                < self.n()
        &&& forall|a: int, b: int|
            0 <= a < b < self.stages.len() ==> #[trigger] self.stages[a].key != #[trigger] self.stages[b].key
    }

    /// Whether an entry has this name.
    pub open spec fn has_name(self, name: Seq<char>) -> bool {
        self.names.contains(name)
    }

    /// The builder after creating an entry named `name`.
    pub open spec fn add_name(self, name: Seq<char>) -> BuilderView {
        BuilderView {
            names: self.names.push(name),
            order: self.order.insert(
                count_below(self.names, self.order, name, self.order.len() as int) as int,
                self.n() as u32,
            ),
            ..self
        }
    }

    pub open spec fn pin(self) -> PinPlan {
        pin_plan(self.pins, self.names)
    }

    /// Final ids in name order.
    pub open spec fn ids(self) -> Seq<u32> {
        sorted_ids(self.order, self.pin().slot_of, self.pin().owner_of)
    }

    /// Final id of each entry, by provisional index.
    pub open spec fn perm(self) -> Seq<u32> {
        perm_of(self.order, self.ids())
    }

    /// Names by final id.
    pub open spec fn by_id(self) -> Seq<Seq<char>> {
        names_by_id(self.names, self.order, self.ids())
    }

    /// Provisional index of the entry with final id `id`.
    pub open spec fn old_of(self, id: u32) -> u32 {
        old_of(self.order, self.ids(), id)
    }

    pub open spec fn props_plan(self) -> PropPlan {
        prop_plan(self.props, self.names)
    }

    /// State counts by final id.
    pub open spec fn counts_by_id(self) -> Seq<nat> {
        Seq::new(self.n(), |id: int| state_count_of(self.props_plan().decls[self.old_of(id as u32) as int]))
    }

    pub open spec fn bases(self) -> BasesPlan {
        bases_plan(self.counts_by_id(), self.by_id(), self.n())
    }

    /// Property slots by final id.
    pub open spec fn slots_by_id(self) -> Seq<Seq<PropertySlot>> {
        Seq::new(self.n(), |id: int| slots_of(self.props_plan().decls[self.old_of(id as u32) as int]))
    }

    /// The registry that building gives when there is no error.
    pub open spec fn model(self) -> RegistryModel {
        RegistryModel {
            names: self.by_id(),
            sorted: self.ids(),
            bases: self.bases().bases,
            slots: self.slots_by_id(),
            keys: self.stages.map_values(|s: StageView| s.key),
            layouts: self.stages.map_values(
                |s: StageView| last_layout(staged_ids(s.owners, self.perm()), self.n()),
            ),
        }
    }

    pub open spec fn cap_errors(self) -> Seq<ErrView> {
        match self.cap {
            Some(c) => if c < self.n() {
                seq![BuildErrorKind::CapExceeded { len: self.n() as u32, cap: c }]
            } else {
                Seq::empty()
            },
            None => Seq::empty(),
        }
    }

    /// Every problem that building reports, in order: the cap, the pins,
    /// each facet, duplicate properties, entries with too many states, and
    /// the total state count.
    pub open spec fn errors(self) -> Seq<ErrView> {
        self.cap_errors() + self.pin().errors + stages_errors(
            self.stages,
            self.perm(),
            self.by_id(),
            self.stages.len(),
        ) + self.props_plan().errors + state_errors(self.props_plan().decls, self.names, self.n())
            + self.bases().errors
    }
}

/// A builder that reports no error builds a well-formed registry: ids are a
/// permutation in name order, every entry has at least one state, and the
/// state numbers of each entry are laid out in mixed radix.
pub proof fn lemma_model_wf(v: BuilderView)
    requires
        v.wf(),
        v.errors().len() == 0,
    ensures
        v.model().wf(),
{
    let n = v.n();
    let m = v.model();
    let p = v.pin();
    lemma_pin_plan(v.pins, v.names);
    lemma_sorted_ids_perm(v.order, p.slot_of, p.owner_of, n);
    lemma_perm_of(v.order, v.ids(), n);
    let decls = v.props_plan().decls;
    assert(v.props_plan().errors.len() == 0);
    assert(state_errors(decls, v.names, n).len() == 0);
    assert(v.bases().errors.len() == 0);
    lemma_prop_plan_counts(v.props, v.names);
    lemma_state_errors_empty(decls, v.names, n);
    lemma_bases_plan(v.counts_by_id(), v.by_id(), n);
    assert(sorted_by_name(m.names, m.sorted)) by {
        assert forall|a: int, c: int| 0 <= a < c < m.sorted.len() implies text_lt(
            #[trigger] m.names[m.sorted[a] as int],
            #[trigger] m.names[m.sorted[c] as int],
        ) by {
            assert(v.perm()[v.order[a] as int] == v.ids()[a]);
            assert(v.perm()[v.order[c] as int] == v.ids()[c]);
            assert(v.old_of(v.ids()[a]) == v.order[a]);
            assert(v.old_of(v.ids()[c]) == v.order[c]);
        }
    }
    assert forall|id: int| 0 <= id < n implies #[trigger] m.bases[id] < m.bases[id + 1] && radix_ok(
        m.slots[id],
        m.count(id) as nat,
    ) by {
        let o = v.old_of(id as u32);
        let ds = decls[o as int];
        assert(!too_many_states(ds));
        lemma_suffix_positive(ds, 0);
        lemma_slots_radix(ds);
        assert(v.counts_by_id()[id] == state_count_of(ds));
    }
    assert forall|a: int, b: int| 0 <= a < b < m.keys.len() implies #[trigger] m.keys[a] != #[trigger] m.keys[b] by {
        assert(m.keys[a] == v.stages[a].key);
        assert(m.keys[b] == v.stages[b].key);
    }
}

/// An entry whose pin was granted gets the pinned slot as its id.
pub proof fn lemma_pinned_entry_gets_slot(v: BuilderView, o: int)
    requires
        v.wf(),
        0 <= o < v.n(),
        v.pin().slot_of[o] is Some,
    ensures
        v.perm()[o] == v.pin().slot_of[o]->0,
{
    let n = v.n();
    lemma_pin_plan(v.pins, v.names);
    lemma_sorted_ids_perm(v.order, v.pin().slot_of, v.pin().owner_of, n);
    lemma_perm_of(v.order, v.ids(), n);
    lemma_position_of(v.order, n, o as u32);
    let k = position(v.order, o as u32);
    assert(v.perm()[v.order[k] as int] == v.ids()[k]);
}

/// In the registry built from `v`, the entry created at provisional index
/// `o` has id `v.perm()[o]` and keeps its name; with the pin lemmas this
/// places each name at its pinned slot or, unpinned, in name order.
pub proof fn lemma_entry_keeps_name(v: BuilderView, o: int)
    requires
        v.wf(),
        0 <= o < v.n(),
    ensures
        v.perm()[o] < v.n(),
        v.model().names[v.perm()[o] as int] == v.names[o],
{
    let n = v.n();
    lemma_pin_plan(v.pins, v.names);
    lemma_sorted_ids_perm(v.order, v.pin().slot_of, v.pin().owner_of, n);
    lemma_perm_of(v.order, v.ids(), n);
    let id = v.perm()[o];
    assert(v.old_of(id) == o);
}

/// Entries without a pin get increasing ids in name order.
pub proof fn lemma_unpinned_follow_names(v: BuilderView, a: int, c: int)
    requires
        v.wf(),
        0 <= a < c < v.n(),
        v.pin().slot_of[v.order[a] as int] is None,
        v.pin().slot_of[v.order[c] as int] is None,
    ensures
        v.perm()[v.order[a] as int] < v.perm()[v.order[c] as int],
        text_lt(v.names[v.order[a] as int], v.names[v.order[c] as int]),
{
    let n = v.n();
    let p = v.pin();
    lemma_pin_plan(v.pins, v.names);
    lemma_sorted_ids_perm(v.order, p.slot_of, p.owner_of, n);
    lemma_perm_of(v.order, v.ids(), n);
    lemma_free_slots(p.owner_of, n);
    lemma_unpinned_step(v.order, p.slot_of, a);
    lemma_unpinned_mono(v.order, p.slot_of, a + 1, c);
    let ua = unpinned_before(v.order, p.slot_of, a);
    let uc = unpinned_before(v.order, p.slot_of, c);
    assert(uc < free_slots(p.owner_of, n).len());
    assert(free_slots(p.owner_of, n)[ua as int] < free_slots(p.owner_of, n)[uc as int]);
}

} // verus!
