//! The steps of building a registry, each checked against the plan.
use vstd::prelude::*;
use crate::counting::{ids_upto, is_perm, lemma_count_bound, lemma_perm_onto};
use crate::name::Name;
use crate::registry::error::BuildErrorKind;
use crate::registry::plan::{
    ErrView, free_slots, lemma_free_slots, lemma_perm_of, lemma_pin_plan, lemma_position,
    lemma_sorted_ids_perm, lemma_unpinned_step, old_of, perm_of, pin_plan, pins_consistent,
    pins_in_range, sorted_ids, unpinned_before, StageView, staged_ids, occurrences, repeat,
    last_layout, lemma_last_layout_unique,
    duplicate_errors, missing_errors, stage_errors, value_errors, declares, prop_plan, slots_of, suffix_product,
    too_many_states, state_count_of, state_errors, bases_plan, lemma_suffix_mono,
};
use crate::state::{PropertyDeclaration, PropertySlot};
use crate::erased::same_type;
use core::any::TypeId;
use crate::registry::builder::Stage;
use crate::registry::column::layout_injective;
use crate::facet::StorageKind;

verus! {

broadcast use vstd::seq_lib::group_seq_properties;

/// The names of a list of stable ids.
pub open spec fn names_view(names: Seq<Name>) -> Seq<Seq<char>> {
    names.map_values(|n: Name| n@)
}

/// The views of a list of errors.
pub open spec fn errs_view(errs: Seq<BuildErrorKind<Name>>) -> Seq<ErrView> {
    errs.map_values(|e: BuildErrorKind<Name>| e@)
}

pub proof fn lemma_errs_push(errs: Seq<BuildErrorKind<Name>>, e: BuildErrorKind<Name>)
    ensures
        errs_view(errs.push(e)) == errs_view(errs).push(e@),
{
    assert(errs_view(errs.push(e)) =~= errs_view(errs).push(e@));
}

/// Resolves `pins` in order, appending the pin errors to `errs`; gives the
/// slot of each pinned entry and the owner of each pinned slot.
pub(crate) fn resolve_pins(pins: &Vec<(u32, u32)>, names: &Vec<Name>, errs: &mut Vec<BuildErrorKind<Name>>) -> (r: (
    Vec<Option<u32>>,
    Vec<Option<u32>>,
))
    requires
        pins_in_range(pins@, names@.len()),
        names@.len() <= u32::MAX,
    ensures
        r.0@ == pin_plan(pins@, names_view(names@)).slot_of,
        r.1@ == pin_plan(pins@, names_view(names@)).owner_of,
        errs_view(final(errs)@) == errs_view(old(errs)@) + pin_plan(pins@, names_view(names@)).errors,
{
    let ghost nv = names_view(names@);
    let n = names.len();
    let mut slot_of: Vec<Option<u32>> = Vec::new();
    let mut owner_of: Vec<Option<u32>> = Vec::new();
    let mut i: usize = 0;
    while i < n
        invariant
            i <= n,
            n == names@.len(),
            slot_of@ == Seq::new(i as nat, |j: int| None::<u32>),
            owner_of@ == Seq::new(i as nat, |j: int| None::<u32>),
        decreases n - i,
    {
        slot_of.push(None);
        owner_of.push(None);
        i = i + 1;
        proof {
            assert(slot_of@ =~= Seq::new(i as nat, |j: int| None::<u32>));
            assert(owner_of@ =~= Seq::new(i as nat, |j: int| None::<u32>));
        }
    }
    let ghost start = old(errs)@;
    proof {
        assert(pins@.take(0) =~= Seq::<(u32, u32)>::empty());
        assert(errs_view(errs@) =~= errs_view(start) + pin_plan(pins@.take(0), nv).errors);
    }
    let mut k: usize = 0;
    while k < pins.len()
        invariant
            k <= pins@.len(),
            n == names@.len(),
            n <= u32::MAX,
            nv == names_view(names@),
            pins_in_range(pins@, n as nat),
            slot_of@ == pin_plan(pins@.take(k as int), nv).slot_of,
            owner_of@ == pin_plan(pins@.take(k as int), nv).owner_of,
            errs_view(errs@) == errs_view(start) + pin_plan(pins@.take(k as int), nv).errors,
        decreases pins@.len() - k,
    {
        let ghost pre = pins@.take(k as int);
        let ghost cur = pins@.take(k as int + 1);
        proof {
            assert(cur.drop_last() =~= pre);
            assert(pins_in_range(pre, n as nat)) by {
                assert forall|j: int| 0 <= j < pre.len() implies (#[trigger] pre[j]).0 < n by {
                    assert(pre[j] == pins@[j]);
                }
            }
            lemma_pin_plan(pre, nv);
        }
        let (e, slot) = pins[k];
        assert(cur.last() == (e, slot));
        assert(e < n);
        match slot_of[e as usize] {
            Some(first) => {
                let err = BuildErrorKind::DoublePin { entry: names[e as usize].clone(), first, second: slot };
                proof {
                    lemma_errs_push(errs@, err);
                }
                errs.push(err);
            },
            None => {
                if slot as usize >= n {
                    let err = BuildErrorKind::PinOutOfRange { entry: names[e as usize].clone(), slot, len: n as u32 };
                    proof {
                        lemma_errs_push(errs@, err);
                    }
                    errs.push(err);
                } else {
                    match owner_of[slot as usize] {
                        Some(first) => {
                            assert(first < n);
                            let err = BuildErrorKind::PinConflict {
                                first: names[first as usize].clone(),
                                second: names[e as usize].clone(),
                                slot,
                            };
                            proof {
                                lemma_errs_push(errs@, err);
                            }
                            errs.push(err);
                        },
                        None => {
                            slot_of.set(e as usize, Some(slot));
                            owner_of.set(slot as usize, Some(e));
                        },
                    }
                }
            },
        }
        k = k + 1;
        proof {
            assert(errs_view(errs@) =~= errs_view(start) + pin_plan(cur, nv).errors);
        }
    }
    proof {
        assert(pins@.take(pins@.len() as int) =~= pins@);
    }
    (slot_of, owner_of)
}

/// The final id of each entry, in name order: pinned entries get their slot
/// and the others the free slots, in increasing order.
pub(crate) fn assign_ids(order: &Vec<u32>, slot_of: &Vec<Option<u32>>, owner_of: &Vec<Option<u32>>) -> (ids: Vec<u32>)
    requires
        is_perm(order@, order@.len()),
        pins_consistent(slot_of@, owner_of@, order@.len()),
        order@.len() <= u32::MAX,
    ensures
        ids@ == sorted_ids(order@, slot_of@, owner_of@),
        is_perm(ids@, order@.len()),
{
    let n = order.len();
    let mut frees: Vec<u32> = Vec::new();
    let mut s: usize = 0;
    while s < n
        invariant
            s <= n,
            n == order@.len(),
            n == owner_of@.len(),
            n <= u32::MAX,
            frees@ == free_slots(owner_of@, s as nat),
        decreases n - s,
    {
        if owner_of[s].is_none() {
            frees.push(s as u32);
        }
        s = s + 1;
    }
    proof {
        lemma_sorted_ids_perm(order@, slot_of@, owner_of@, n as nat);
        lemma_free_slots(owner_of@, n as nat);
        lemma_count_bound(ids_upto(n as nat), owner_of@);
    }
    let ghost target = sorted_ids(order@, slot_of@, owner_of@);
    let mut ids: Vec<u32> = Vec::new();
    let mut u: usize = 0;
    let mut k: usize = 0;
    while k < n
        invariant
            k <= n,
            n == order@.len(),
            n == owner_of@.len(),
            n == slot_of@.len(),
            is_perm(order@, n as nat),
            frees@ == free_slots(owner_of@, n as nat),
            frees@.len() <= n,
            target == sorted_ids(order@, slot_of@, owner_of@),
            u == unpinned_before(order@, slot_of@, k as int),
            forall|j: int|
                0 <= j < n && slot_of@[order@[j] as int] is None ==> #[trigger] unpinned_before(
                    order@,
                    slot_of@,
                    j,
                ) < free_slots(owner_of@, n as nat).len(),
            ids@ == target.take(k as int),
        decreases n - k,
    {
        let o = order[k];
        proof {
            lemma_unpinned_step(order@, slot_of@, k as int);
        }
        match slot_of[o as usize] {
            Some(slot) => {
                ids.push(slot);
            },
            None => {
                assert(unpinned_before(order@, slot_of@, k as int) < free_slots(owner_of@, n as nat).len());
                ids.push(frees[u]);
                u = u + 1;
            },
        }
        k = k + 1;
        proof {
            assert(ids@ =~= target.take(k as int));
        }
    }
    proof {
        assert(target.take(n as int) =~= target);
    }
    ids
}

/// The final id of each entry, by provisional index.
pub(crate) fn invert_order(order: &Vec<u32>, ids: &Vec<u32>) -> (perm: Vec<u32>)
    requires
        is_perm(order@, order@.len()),
        is_perm(ids@, order@.len()),
        order@.len() <= u32::MAX,
    ensures
        perm@ == perm_of(order@, ids@),
        is_perm(perm@, order@.len()),
{
    let n = order.len();
    let mut perm: Vec<u32> = vec![0u32; n];
    let mut k: usize = 0;
    while k < n
        invariant
            k <= n,
            n == order@.len(),
            n == ids@.len(),
            perm@.len() == n,
            is_perm(order@, n as nat),
            forall|j: int| 0 <= j < k ==> #[trigger] perm@[order@[j] as int] == ids@[j],
        decreases n - k,
    {
        proof {
            assert forall|j: int| 0 <= j < k implies order@[j] != order@[k as int] by {}
        }
        perm.set(order[k] as usize, ids[k]);
        k = k + 1;
    }
    proof {
        lemma_perm_of(order@, ids@, n as nat);
        assert forall|o: int| 0 <= o < n implies perm@[o] == perm_of(order@, ids@)[o] by {
            lemma_perm_onto(order@, n as nat, o as u32);
            let j = choose|j: int| 0 <= j < order@.len() && order@[j] == o as u32;
            assert(perm@[order@[j] as int] == ids@[j]);
        }
        assert(perm@ =~= perm_of(order@, ids@));
    }
    perm
}

/// The provisional index of each final id.
pub(crate) fn old_indices(perm: &Vec<u32>, Ghost(order): Ghost<Seq<u32>>, Ghost(ids): Ghost<Seq<u32>>) -> (inv: Vec<u32>)
    requires
        perm@ == perm_of(order, ids),
        is_perm(order, order.len()),
        is_perm(ids, order.len()),
        order.len() <= u32::MAX,
    ensures
        inv@.len() == order.len(),
        forall|id: int| 0 <= id < order.len() ==> #[trigger] inv@[id] == old_of(order, ids, id as u32),
        is_perm(inv@, order.len()),
{
    let n = perm.len();
    proof {
        lemma_perm_of(order, ids, n as nat);
    }
    let mut inv: Vec<u32> = vec![0u32; n];
    let mut o: usize = 0;
    while o < n
        invariant
            o <= n,
            n == order.len(),
            n <= u32::MAX,
            perm@ == perm_of(order, ids),
            is_perm(perm@, n as nat),
            inv@.len() == n,
            forall|j: int| 0 <= j < o ==> #[trigger] inv@[perm@[j] as int] == j,
        decreases n - o,
    {
        proof {
            assert forall|j: int| 0 <= j < o implies perm@[j] != perm@[o as int] by {}
        }
        inv.set(perm[o] as usize, o as u32);
        o = o + 1;
    }
    proof {
        assert forall|id: int| 0 <= id < n implies #[trigger] inv@[id] == old_of(order, ids, id as u32) by {
            lemma_perm_onto(perm@, n as nat, id as u32);
            let j = choose|j: int| 0 <= j < perm@.len() && perm@[j] == id as u32;
            assert(old_of(order, ids, perm@[j]) == j);
        }
        assert forall|a: int, b: int| 0 <= a < n && 0 <= b < n && a != b implies inv@[a] != inv@[b] by {
            assert(perm@[inv@[a] as int] == a as u32);
            assert(perm@[inv@[b] as int] == b as u32);
        }
    }
    inv
}

/// The names by final id.
pub(crate) fn names_by_final_id(names: &Vec<Name>, inv: &Vec<u32>) -> (r: Vec<Name>)
    requires
        inv@.len() == names@.len(),
        forall|id: int| 0 <= id < inv@.len() ==> #[trigger] inv@[id] < names@.len(),
    ensures
        names_view(r@) == Seq::new(names@.len(), |id: int| names_view(names@)[inv@[id] as int]),
{
    let n = names.len();
    let mut r: Vec<Name> = Vec::new();
    let mut id: usize = 0;
    while id < n
        invariant
            id <= n,
            n == names@.len(),
            inv@.len() == n,
            forall|j: int| 0 <= j < inv@.len() ==> #[trigger] inv@[j] < names@.len(),
            names_view(r@) == Seq::new(id as nat, |j: int| names_view(names@)[inv@[j] as int]),
        decreases n - id,
    {
        let name = names[inv[id] as usize].clone();
        let ghost before = r@;
        r.push(name);
        id = id + 1;
        proof {
            assert(names_view(r@) =~= names_view(before).push(name@));
            assert(names_view(r@) =~= Seq::new(id as nat, |j: int| names_view(names@)[inv@[j] as int]));
        }
    }
    r
}

} // verus!

verus! {

/// The final id of each staged value of a stage.
pub open spec fn stage_staged(st: StageView, perm: Seq<u32>) -> Seq<u32> {
    staged_ids(st.owners, perm)
}

proof fn lemma_occurrences_step(s: Seq<u32>, j: int, id: u32)
    requires
        0 <= j < s.len(),
    ensures
        occurrences(s.take(j + 1), id) == occurrences(s.take(j), id) + if s[j] == id {
            1nat
        } else {
            0nat
        },
        occurrences(s.take(j), id) <= j,
    decreases j,
{
    assert(s.take(j + 1).drop_last() =~= s.take(j));
    if j > 0 {
        lemma_occurrences_step(s, j - 1, id);
    } else {
        assert(s.take(0).len() == 0);
    }
}

/// Checks the values given to one facet, `staged[j]` being the final id of
/// the `j`-th value; appends its duplicate and missing-value errors to
/// `errs`, and gives, for each final id, the position of its last value.
pub(crate) fn check_values(
    staged_v: &Vec<u32>,
    by_id: &Vec<Name>,
    component: &'static str,
    storage: StorageKind,
    errs: &mut Vec<BuildErrorKind<Name>>,
) -> (layout: Vec<Option<usize>>)
    requires
        by_id@.len() <= u32::MAX,
        forall|k: int| 0 <= k < staged_v@.len() ==> #[trigger] staged_v@[k] < by_id@.len(),
    ensures
        errs_view(final(errs)@) == errs_view(old(errs)@) + value_errors(staged_v@, names_view(by_id@), component, storage),
        layout@.len() == by_id@.len(),
        layout@ == last_layout(staged_v@, by_id@.len()),
        layout_injective(layout@),
        forall|id: int|
            0 <= id < layout@.len() ==> match #[trigger] layout@[id] {
                Some(j) => {
                    &&& j < staged_v@.len()
                    &&& staged_v@[j as int] == id
                    &&& forall|j2: int| j < j2 < staged_v@.len() ==> staged_v@[j2] != id
                },
                None => forall|j2: int| 0 <= j2 < staged_v@.len() ==> staged_v@[j2] != id,
            },
{
    let ghost staged = staged_v@;
    let ghost names = names_view(by_id@);
    let n = by_id.len();
    let m = staged_v.len();
    let mut counts: Vec<usize> = vec![0usize; n];
    let mut layout: Vec<Option<usize>> = vec![None; n];
    let mut j: usize = 0;
    while j < m
        invariant
            j <= m,
            m == staged.len(),
            staged == staged_v@,
            n == by_id@.len(),
            n <= u32::MAX,
            forall|k: int| 0 <= k < staged_v@.len() ==> #[trigger] staged_v@[k] < n,
            counts@.len() == n,
            layout@.len() == n,
            forall|id: int| 0 <= id < n ==> #[trigger] counts@[id] == occurrences(staged.take(j as int), id as u32),
            forall|id: int|
                0 <= id < n ==> match #[trigger] layout@[id] {
                    Some(j1) => {
                        &&& j1 < j
                        &&& staged[j1 as int] == id
                        &&& forall|j2: int| j1 < j2 < j ==> staged[j2] != id
                    },
                    None => forall|j2: int| 0 <= j2 < j ==> staged[j2] != id,
                },
        decreases m - j,
    {
        let id = staged_v[j] as usize;
        proof {
            assert forall|x: int| 0 <= x < n implies #[trigger] occurrences(staged.take(j as int + 1), x as u32) == occurrences(
                staged.take(j as int),
                x as u32,
            ) + if staged[j as int] == x as u32 {
                1nat
            } else {
                0nat
            } && occurrences(staged.take(j as int), x as u32) <= j by {
                lemma_occurrences_step(staged, j as int, x as u32);
            }
            lemma_occurrences_step(staged, j as int, id as u32);
        }
        let c = counts[id];
        counts.set(id, c + 1);
        layout.set(id, Some(j));
        j = j + 1;
    }
    proof {
        assert(staged.take(m as int) =~= staged);
    }
    let ghost start = old(errs)@;
    let mut id: usize = 0;
    while id < n
        invariant
            id <= n,
            n == by_id@.len(),
            n <= u32::MAX,
            names == names_view(by_id@),
            counts@.len() == n,
            forall|x: int| 0 <= x < n ==> #[trigger] counts@[x] == occurrences(staged, x as u32),
            errs_view(errs@) == errs_view(start) + duplicate_errors(staged, names, component, id as nat),
        decreases n - id,
    {
        let c = counts[id];
        let ghost e = BuildErrorKind::DuplicateComponent { entry: names[id as int], component };
        let ghost base = errs_view(errs@);
        let mut t: usize = 1;
        while t < c
            invariant
                1 <= t,
                c >= 1 ==> t <= c,
                c == 0 ==> t == 1,
                id < n,
                n == by_id@.len(),
                names == names_view(by_id@),
                e == (BuildErrorKind::DuplicateComponent { entry: names[id as int], component }),
                errs_view(errs@) == base + repeat(e, (t - 1) as nat),
            decreases c - t,
        {
            let err = BuildErrorKind::DuplicateComponent { entry: by_id[id].clone(), component };
            proof {
                lemma_errs_push(errs@, err);
                assert(repeat(e, (t - 1) as nat).push(e) =~= repeat(e, t as nat));
            }
            errs.push(err);
            t = t + 1;
        }
        proof {
            let extra: nat = if c > 1 { (c - 1) as nat } else { 0nat };
            assert(c >= 1 ==> t == c);
            assert(c == 0 ==> t == 1);
            assert((t - 1) as nat == extra);
            assert(repeat(e, (t - 1) as nat) =~= repeat(e, extra));
            assert(duplicate_errors(staged, names, component, id as nat + 1) == duplicate_errors(
                staged,
                names,
                component,
                id as nat,
            ) + repeat(e, extra));
        }
        id = id + 1;
    }
    let ghost after_dups = errs_view(errs@);
    match storage {
        StorageKind::Required => {
            let mut id: usize = 0;
            proof {
                assert(missing_errors(staged, names, component, 0) =~= Seq::<ErrView>::empty());
            }
            while id < n
                invariant
                    id <= n,
                    n == by_id@.len(),
                    n <= u32::MAX,
                    names == names_view(by_id@),
                    counts@.len() == n,
                    forall|x: int| 0 <= x < n ==> #[trigger] counts@[x] == occurrences(staged, x as u32),
                    errs_view(errs@) == after_dups + missing_errors(staged, names, component, id as nat),
                decreases n - id,
            {
                if counts[id] == 0 {
                    let err = BuildErrorKind::MissingComponent { entry: by_id[id].clone(), component };
                    proof {
                        lemma_errs_push(errs@, err);
                    }
                    errs.push(err);
                }
                id = id + 1;
            }
        },
        _ => {
            proof {
                assert(errs_view(errs@) =~= after_dups + Seq::<ErrView>::empty());
            }
        },
    }
    proof {
        assert(errs_view(errs@) =~= errs_view(start) + value_errors(staged, names, component, storage));
        assert forall|a: int, b: int|
            0 <= a < layout@.len() && 0 <= b < layout@.len() && a != b && layout@[a] is Some implies #[trigger] layout@[a]
            != #[trigger] layout@[b] by {
            if layout@[a] == layout@[b] {
                let j = layout@[a]->0;
                assert(staged[j as int] == a);
                assert(staged[j as int] == b);
            }
        }
        lemma_last_layout_unique(layout@, staged);
    }
    layout
}

/// The final id of each value staged for `st`.
pub(crate) fn stage_ids(st: &Stage, perm: &Vec<u32>) -> (r: Vec<u32>)
    requires
        forall|k: int| 0 <= k < st.owners@.len() ==> #[trigger] st.owners@[k] < perm@.len(),
    ensures
        r@ == stage_staged(st.view(), perm@),
{
    let mut r: Vec<u32> = Vec::new();
    let mut j: usize = 0;
    while j < st.owners.len()
        invariant
            j <= st.owners@.len(),
            forall|k: int| 0 <= k < st.owners@.len() ==> #[trigger] st.owners@[k] < perm@.len(),
            r@ == stage_staged(st.view(), perm@).take(j as int),
        decreases st.owners@.len() - j,
    {
        r.push(perm[st.owners[j] as usize]);
        j = j + 1;
        proof {
            assert(r@ =~= stage_staged(st.view(), perm@).take(j as int));
        }
    }
    proof {
        assert(stage_staged(st.view(), perm@).take(j as int) =~= stage_staged(st.view(), perm@));
    }
    r
}

} // verus!

verus! {

/// The declarations held per entry.
pub open spec fn decls_view(decls: Seq<Vec<PropertyDeclaration>>) -> Seq<Seq<PropertyDeclaration>> {
    decls.map_values(|v: Vec<PropertyDeclaration>| v@)
}

proof fn lemma_prop_plan_len(props: Seq<(u32, PropertyDeclaration)>, names: Seq<Seq<char>>)
    requires
        forall|k: int| 0 <= k < props.len() ==> (#[trigger] props[k]).0 < names.len(),
    ensures
        prop_plan(props, names).decls.len() == names.len(),
    decreases props.len(),
{
    if props.len() > 0 {
        assert forall|k: int| 0 <= k < props.drop_last().len() implies (#[trigger] props.drop_last()[k]).0 < names.len() by {
            assert(props.drop_last()[k] == props[k]);
        }
        lemma_prop_plan_len(props.drop_last(), names);
        assert(props.last() == props[props.len() - 1]);
    }
}

/// Whether `ds` declares a property with key `key`.
pub(crate) fn declares_key(ds: &Vec<PropertyDeclaration>, key: &TypeId) -> (r: bool)
    ensures
        r == declares(ds@, *key),
{
    let mut j: usize = 0;
    while j < ds.len()
        invariant
            j <= ds@.len(),
            forall|x: int| 0 <= x < j ==> ds@[x].id != *key,
        decreases ds@.len() - j,
    {
        if same_type(&ds[j].id, key) {
            return true;
        }
        j = j + 1;
    }
    false
}

/// Gathers the property declarations of each entry, appending an error for
/// each property declared twice on an entry.
pub(crate) fn gather_props(props: &Vec<(u32, PropertyDeclaration)>, names: &Vec<Name>, errs: &mut Vec<BuildErrorKind<Name>>) -> (decls: Vec<Vec<PropertyDeclaration>>)
    requires
        forall|k: int| 0 <= k < props@.len() ==> (#[trigger] props@[k]).0 < names@.len(),
    ensures
        decls_view(decls@) == prop_plan(props@, names_view(names@)).decls,
        errs_view(final(errs)@) == errs_view(old(errs)@) + prop_plan(props@, names_view(names@)).errors,
{
    let ghost nv = names_view(names@);
    let n = names.len();
    let mut decls: Vec<Vec<PropertyDeclaration>> = Vec::new();
    let mut i: usize = 0;
    while i < n
        invariant
            i <= n,
            n == names@.len(),
            decls_view(decls@) == Seq::new(i as nat, |j: int| Seq::<PropertyDeclaration>::empty()),
        decreases n - i,
    {
        let ghost before = decls@;
        let empty: Vec<PropertyDeclaration> = Vec::new();
        assert(empty@ == Seq::<PropertyDeclaration>::empty());
        decls.push(empty);
        i = i + 1;
        proof {
            assert(decls_view(decls@) =~= decls_view(before).push(Seq::<PropertyDeclaration>::empty()));
            assert(decls_view(decls@) =~= Seq::new(i as nat, |j: int| Seq::<PropertyDeclaration>::empty()));
        }
    }
    let ghost start = old(errs)@;
    proof {
        assert(props@.take(0) =~= Seq::<(u32, PropertyDeclaration)>::empty());
        assert(errs_view(errs@) =~= errs_view(start) + prop_plan(props@.take(0), nv).errors);
    }
    let mut k: usize = 0;
    while k < props.len()
        invariant
            k <= props@.len(),
            n == names@.len(),
            nv == names_view(names@),
            forall|x: int| 0 <= x < props@.len() ==> (#[trigger] props@[x]).0 < names@.len(),
            decls_view(decls@) == prop_plan(props@.take(k as int), nv).decls,
            errs_view(errs@) == errs_view(start) + prop_plan(props@.take(k as int), nv).errors,
        decreases props@.len() - k,
    {
        let ghost pre = props@.take(k as int);
        let ghost cur = props@.take(k as int + 1);
        proof {
            assert(cur.drop_last() =~= pre);
            assert forall|x: int| 0 <= x < pre.len() implies (#[trigger] pre[x]).0 < nv.len() by {
                assert(pre[x] == props@[x]);
            }
            lemma_prop_plan_len(pre, nv);
            assert(cur.last() == props@[k as int]);
        }
        let e = props[k].0;
        let d = props[k].1;
        if declares_key(&decls[e as usize], &d.id) {
            let err = BuildErrorKind::DuplicateProperty { entry: names[e as usize].clone(), property: d.name };
            proof {
                lemma_errs_push(errs@, err);
            }
            errs.push(err);
        } else {
            let ghost dv = decls@;
            decls[e as usize].push(d);
            proof {
                assert(decls@.len() == dv.len());
                assert forall|x: int| 0 <= x < dv.len() && x != e implies decls@[x] == dv[x] by {}
                assert(decls_view(decls@) =~= decls_view(dv).update(e as int, decls_view(dv)[e as int].push(d)));
            }
        }
        k = k + 1;
        proof {
            assert(errs_view(errs@) =~= errs_view(start) + prop_plan(cur, nv).errors);
        }
    }
    proof {
        assert(props@.take(props@.len() as int) =~= props@);
    }
    decls
}

/// The property slots and state count of an entry with declarations `ds`;
/// `None` when the count does not fit in `u32`.
pub(crate) fn entry_states(ds: &Vec<PropertyDeclaration>) -> (r: Option<(Vec<PropertySlot>, u32)>)
    requires
        forall|j: int| 0 <= j < ds@.len() ==> (#[trigger] ds@[j]).count > 0,
    ensures
        match r {
            None => too_many_states(ds@),
            Some((sl, c)) => !too_many_states(ds@) && sl@ == slots_of(ds@) && c == suffix_product(ds@, 0),
        },
{
    let m = ds.len();
    let mut rev: Vec<u32> = Vec::new();
    let mut stride: u32 = 1;
    let mut j: usize = m;
    while j > 0
        invariant
            j <= m,
            m == ds@.len(),
            forall|x: int| 0 <= x < ds@.len() ==> (#[trigger] ds@[x]).count > 0,
            stride == suffix_product(ds@, j as int),
            rev@.len() == m - j,
            forall|t: int| 0 <= t < rev@.len() ==> #[trigger] rev@[t] == suffix_product(ds@, m - t),
        decreases j,
    {
        j = j - 1;
        rev.push(stride);
        proof {
            assert(suffix_product(ds@, j as int) == ds@[j as int].count as nat * suffix_product(ds@, j as int + 1));
        }
        match ds[j].count.checked_mul(stride) {
            Some(s) => {
                stride = s;
            },
            None => {
                proof {
                    lemma_suffix_mono(ds@, 0, j as int);
                }
                return None;
            },
        }
    }
    let mut sl: Vec<PropertySlot> = Vec::new();
    let mut k: usize = 0;
    while k < m
        invariant
            k <= m,
            m == ds@.len(),
            rev@.len() == m,
            forall|t: int| 0 <= t < rev@.len() ==> #[trigger] rev@[t] == suffix_product(ds@, m - t),
            sl@ == slots_of(ds@).take(k as int),
        decreases m - k,
    {
        let d = ds[k];
        let s = PropertySlot { id: d.id, count: d.count, stride: rev[m - 1 - k] };
        sl.push(s);
        k = k + 1;
        proof {
            assert(sl@ =~= slots_of(ds@).take(k as int));
        }
    }
    proof {
        assert(slots_of(ds@).take(m as int) =~= slots_of(ds@));
    }
    Some((sl, stride))
}

} // verus!

verus! {

/// The slots and state count of each entry, placed at its final id;
/// appends an error for each entry (in provisional order) whose state count
/// does not fit.
pub(crate) fn states_by_id(
    decls: &Vec<Vec<PropertyDeclaration>>,
    perm: &Vec<u32>,
    names: &Vec<Name>,
    errs: &mut Vec<BuildErrorKind<Name>>,
) -> (r: (Vec<Vec<PropertySlot>>, Vec<u32>))
    requires
        decls@.len() == names@.len(),
        perm@.len() == names@.len(),
        names@.len() <= u32::MAX,
        is_perm(perm@, names@.len()),
        forall|o: int, j: int|
            0 <= o < decls@.len() && 0 <= j < decls@[o]@.len() ==> (#[trigger] decls@[o]@[j]).count > 0,
    ensures
        r.0@.len() == names@.len(),
        r.1@.len() == names@.len(),
        forall|o: int|
            0 <= o < names@.len() ==> #[trigger] r.1@[perm@[o] as int] == state_count_of(decls_view(decls@)[o]),
        forall|o: int|
            0 <= o < names@.len() && !too_many_states(decls_view(decls@)[o]) ==> #[trigger] r.0@[perm@[o] as int]@
                == slots_of(decls_view(decls@)[o]),
        errs_view(final(errs)@) == errs_view(old(errs)@) + state_errors(
            decls_view(decls@),
            names_view(names@),
            names@.len(),
        ),
{
    let ghost dv = decls_view(decls@);
    let ghost nv = names_view(names@);
    let n = names.len();
    let mut slots: Vec<Vec<PropertySlot>> = Vec::new();
    let mut i: usize = 0;
    while i < n
        invariant
            i <= n,
            slots@.len() == i,
        decreases n - i,
    {
        slots.push(Vec::new());
        i = i + 1;
    }
    let mut counts: Vec<u32> = vec![1u32; n];
    let ghost start = old(errs)@;
    let mut o: usize = 0;
    while o < n
        invariant
            o <= n,
            n == names@.len(),
            n <= u32::MAX,
            dv == decls_view(decls@),
            nv == names_view(names@),
            decls@.len() == n,
            perm@.len() == n,
            is_perm(perm@, n as nat),
            forall|x: int, j: int|
                0 <= x < decls@.len() && 0 <= j < decls@[x]@.len() ==> (#[trigger] decls@[x]@[j]).count > 0,
            slots@.len() == n,
            counts@.len() == n,
            forall|x: int| 0 <= x < o ==> #[trigger] counts@[perm@[x] as int] == state_count_of(dv[x]),
            forall|x: int|
                0 <= x < o && !too_many_states(dv[x]) ==> #[trigger] slots@[perm@[x] as int]@ == slots_of(dv[x]),
            forall|x: int| o <= x < n ==> #[trigger] counts@[perm@[x] as int] == 1,
            errs_view(errs@) == errs_view(start) + state_errors(dv, nv, o as nat),
        decreases n - o,
    {
        let id = perm[o] as usize;
        proof {
            assert(dv[o as int] == decls@[o as int]@);
            assert forall|x: int| 0 <= x < n && x != o implies perm@[x] != id by {}
        }
        match entry_states(&decls[o]) {
            None => {
                let err = BuildErrorKind::TooManyStates { entry: names[o].clone() };
                proof {
                    lemma_errs_push(errs@, err);
                }
                errs.push(err);
            },
            Some((sl, c)) => {
                slots.set(id, sl);
                counts.set(id, c);
            },
        }
        o = o + 1;
    }
    (slots, counts)
}

/// The first state of each entry, by final id, followed by the total; an
/// addition that overflows is skipped and reported.
pub(crate) fn compute_bases(counts: &Vec<u32>, by_id: &Vec<Name>, Ghost(cs): Ghost<Seq<nat>>, errs: &mut Vec<BuildErrorKind<Name>>) -> (bases: Vec<u32>)
    requires
        counts@.len() == by_id@.len(),
        cs.len() == counts@.len(),
        forall|i: int| 0 <= i < cs.len() ==> cs[i] == #[trigger] counts@[i] as nat,
    ensures
        bases@ == bases_plan(cs, names_view(by_id@), by_id@.len()).bases,
        errs_view(final(errs)@) == errs_view(old(errs)@) + bases_plan(cs, names_view(by_id@), by_id@.len()).errors,
{
    let ghost nv = names_view(by_id@);
    let n = by_id.len();
    let mut bases: Vec<u32> = Vec::new();
    bases.push(0);
    let mut acc: u32 = 0;
    let ghost start = old(errs)@;
    proof {
        assert(bases@ =~= bases_plan(cs, nv, 0).bases);
        assert(errs_view(errs@) =~= errs_view(start) + bases_plan(cs, nv, 0).errors);
    }
    let mut k: usize = 0;
    while k < n
        invariant
            k <= n,
            n == by_id@.len(),
            nv == names_view(by_id@),
            counts@.len() == n,
            cs.len() == n,
            forall|i: int| 0 <= i < cs.len() ==> cs[i] == #[trigger] counts@[i] as nat,
            bases@ == bases_plan(cs, nv, k as nat).bases,
            bases@.len() == k + 1,
            acc == bases@.last(),
            errs_view(errs@) == errs_view(start) + bases_plan(cs, nv, k as nat).errors,
        decreases n - k,
    {
        proof {
            assert(cs[k as int] == counts@[k as int] as nat);
        }
        match acc.checked_add(counts[k]) {
            Some(a) => {
                acc = a;
            },
            None => {
                let err = BuildErrorKind::TooManyStatesTotal { entry: by_id[k].clone() };
                proof {
                    lemma_errs_push(errs@, err);
                }
                errs.push(err);
            },
        }
        bases.push(acc);
        k = k + 1;
    }
    bases
}

} // verus!
