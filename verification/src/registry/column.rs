//! Assembling a typed column from staged values once ids are final.
use vstd::prelude::*;
use crate::facet::{Column, Facet, Storage, StorageKind, fill_of, fill_value, kind_of, storage_kind};
use crate::registry::plan::{last_layout, lemma_last_pos};

verus! {

broadcast use vstd::seq_lib::group_seq_properties;

/// No staged value is used for two entries.
pub open spec fn layout_injective(layout: Seq<Option<usize>>) -> bool {
    forall|a: int, b: int|
        0 <= a < layout.len() && 0 <= b < layout.len() && a != b && layout[a] is Some ==> #[trigger] layout[a]
            != #[trigger] layout[b]
}

/// Every staged value that `layout` names exists, and a required facet has
/// a value for every entry.
pub open spec fn layout_fits(layout: Seq<Option<usize>>, len: nat, kind: StorageKind) -> bool {
    &&& forall|id: int| 0 <= id < layout.len() && (#[trigger] layout[id]) is Some ==> layout[id]->0 < len
    &&& kind == StorageKind::Required ==> forall|id: int| 0 <= id < layout.len() ==> (#[trigger] layout[id]) is Some
}

/// The value that entry `id` gets: its staged value `values[layout[id]]`
/// when there is one; otherwise the fill value of a dense facet, or none.
pub open spec fn laid_out<C>(values: Seq<C>, layout: Seq<Option<usize>>, storage: Storage<C>, id: int) -> Option<C> {
    if 0 <= id < layout.len() {
        match layout[id] {
            Some(j) => Some(values[j as int]),
            None => fill_of(storage),
        }
    } else {
        None
    }
}

/// Laid out by the last position of each id among the ids given, entry `id`
/// gets the value given last for it, or, given none, the fill value of a
/// dense facet (none otherwise).
pub proof fn lemma_value_of_entry<C>(ids: Seq<u32>, values: Seq<C>, n: nat, storage: Storage<C>, id: int, j: int)
    requires
        ids.len() == values.len(),
        ids.len() <= usize::MAX,
        0 <= id < n,
    ensures
        0 <= j < ids.len() && ids[j] == id && (forall|j2: int| j < j2 < ids.len() ==> ids[j2] != id) ==> laid_out(
            values,
            last_layout(ids, n),
            storage,
            id,
        ) == Some(values[j]),
        (forall|j2: int| 0 <= j2 < ids.len() ==> ids[j2] != id) ==> laid_out(values, last_layout(ids, n), storage, id)
            == fill_of(storage),
{
    lemma_last_pos(ids, id);
    if 0 <= j < ids.len() && ids[j] == id && (forall|j2: int| j < j2 < ids.len() ==> ids[j2] != id) {
        match crate::registry::plan::last_pos(ids, id) {
            Some(k) => {
                if k < j {
                    assert(ids[j] == id);
                } else if j < k {
                    assert(ids[k as int] == id);
                }
            },
            None => {
                assert(ids[j] == id);
            },
        }
    }
}

/// A column for entries `0..layout.len()` in which entry `id` has value
/// `values[layout[id]]` when `layout[id]` names one; a dense facet gives the
/// other entries its fill value. `None` when `layout` names a value that is
/// not there, or leaves an entry of a required facet without one.
pub fn column_from_layout<K, C: Facet>(values: Vec<C>, layout: &Vec<Option<usize>>) -> (r: Option<Column<K, C>>)
    requires
        layout@.len() <= u32::MAX + 1,
        layout_injective(layout@),
    ensures
        r is Some <==> layout_fits(layout@, values@.len(), kind_of(C::STORAGE)),
        r matches Some(col) ==> {
            &&& col.is_dense() <==> kind_of(C::STORAGE) != StorageKind::Sparse
            &&& forall|id: u32| #[trigger] col.spec_get(id) == laid_out(values@, layout@, C::STORAGE, id as int)
            &&& col.placement() == Some(layout@)
            &&& col.source() == Some(values@)
        },
{
    let n = layout.len();
    let m = values.len();
    let kind = storage_kind::<C>();
    let mut id: usize = 0;
    while id < n
        invariant
            id <= n,
            n == layout@.len(),
            m == values@.len(),
            kind == kind_of(C::STORAGE),
            forall|x: int| 0 <= x < id && (#[trigger] layout@[x]) is Some ==> layout@[x]->0 < m,
            kind == StorageKind::Required ==> forall|x: int| 0 <= x < id ==> (#[trigger] layout@[x]) is Some,
        decreases n - id,
    {
        match layout[id] {
            Some(j) => {
                if j >= m {
                    return None;
                }
            },
            None => {
                match kind {
                    StorageKind::Required => {
                        return None;
                    },
                    _ => {},
                }
            },
        }
        id = id + 1;
    }
    let ghost vals = values@;
    let mut rest = values;
    let mut slots: Vec<Option<C>> = Vec::new();
    while rest.len() > 0
        invariant
            rest@.len() + slots@.len() == m,
            m == vals.len(),
            forall|j: int| 0 <= j < rest@.len() ==> #[trigger] rest@[j] == vals[j],
            forall|k: int| 0 <= k < slots@.len() ==> #[trigger] slots@[k] == Some(vals[m - 1 - k]),
        decreases rest@.len(),
    {
        let v = rest.pop().unwrap();
        slots.push(Some(v));
    }
    let mut ids: Vec<u32> = Vec::new();
    let mut out: Vec<C> = Vec::new();
    let mut id: usize = 0;
    while id < n
        invariant
            id <= n,
            n == layout@.len(),
            n <= u32::MAX + 1,
            m == vals.len(),
            slots@.len() == m,
            kind == kind_of(C::STORAGE),
            layout_injective(layout@),
            layout_fits(layout@, m as nat, kind),
            forall|j: int|
                0 <= j < m && (forall|x: int| 0 <= x < id ==> layout@[x] != Some(j as usize)) ==> #[trigger] slots@[m
                    - 1 - j] == Some(vals[j]),
            kind != StorageKind::Sparse ==> out@.len() == id,
            kind != StorageKind::Sparse ==> forall|x: int| 0 <= x < id ==> Some(#[trigger] out@[x]) == laid_out(vals, layout@, C::STORAGE, x),
            kind == StorageKind::Sparse ==> {
                &&& ids@.len() == out@.len()
                &&& forall|a: int, b: int| 0 <= a < b < ids@.len() ==> ids@[a] < ids@[b]
                &&& forall|a: int| 0 <= a < ids@.len() ==> #[trigger] ids@[a] < id
                &&& forall|a: int| 0 <= a < ids@.len() ==> Some(#[trigger] out@[a]) == laid_out(vals, layout@, C::STORAGE, ids@[a] as int)
                &&& forall|x: int| 0 <= x < id && layout@[x] is Some ==> exists|a: int| 0 <= a < ids@.len() && #[trigger] ids@[a] == x
            },
        decreases n - id,
    {
        match layout[id] {
            Some(j) => {
                proof {
                    assert forall|x: int| 0 <= x < id implies layout@[x] != Some(j) by {
                        assert(layout@[id as int] != layout@[x]);
                    }
                }
                let taken = slots[m - 1 - j].take();
                match taken {
                    Some(v) => {
                        let ghost ids0 = ids@;
                        match kind {
                            StorageKind::Sparse => {
                                ids.push(id as u32);
                                proof {
                                    assert(ids@[ids@.len() - 1] == id as u32);
                                    assert forall|x: int| 0 <= x < id && layout@[x] is Some implies exists|a: int|
                                        0 <= a < ids@.len() && #[trigger] ids@[a] == x by {
                                        let a = choose|a: int| 0 <= a < ids0.len() && #[trigger] ids0[a] == x;
                                        assert(ids@[a] == ids0[a]);
                                    }
                                }
                            },
                            _ => {},
                        }
                        out.push(v);
                    },
                    None => {
                        proof {
                            assert(false);
                        }
                    },
                }
            },
            None => {
                match kind {
                    StorageKind::Dense => {
                        match fill_value::<C>() {
                            Some(v) => out.push(v),
                            None => {},
                        }
                    },
                    _ => {},
                }
            },
        }
        id = id + 1;
    }
    proof {
        assert(layout_fits(layout@, vals.len(), kind));
    }
    match kind {
        StorageKind::Sparse => {
            let col = Column::<K, C>::sparse(ids, out);
            proof {
                assert forall|x: u32| #[trigger] col.spec_get(x) == laid_out(vals, layout@, C::STORAGE, x as int) by {
                    let ids_s = col.ids();
                    if exists|a: int| 0 <= a < ids_s.len() && ids_s[a] == x {
                        let a = choose|a: int| 0 <= a < ids_s.len() && ids_s[a] == x;
                        assert(Some(col.values()[a]) == laid_out(vals, layout@, C::STORAGE, ids_s[a] as int));
                    } else {
                        if 0 <= x < n && layout@[x as int] is Some {
                            let a = choose|a: int| 0 <= a < ids_s.len() && #[trigger] ids_s[a] == x;
                        }
                    }
                }
            }
            Some(col.placed_by(Ghost(vals), Ghost(layout@)))
        },
        _ => {
            let col = Column::<K, C>::dense(out);
            proof {
                assert forall|x: u32| #[trigger] col.spec_get(x) == laid_out(vals, layout@, C::STORAGE, x as int) by {
                    let ids_s = col.ids();
                    if x < n {
                        assert(ids_s[x as int] == x);
                        assert forall|a: int| 0 <= a < ids_s.len() && ids_s[a] == x implies a == x by {}
                    } else {
                        assert forall|a: int| 0 <= a < ids_s.len() implies ids_s[a] != x by {}
                    }
                }
            }
            Some(col.placed_by(Ghost(vals), Ghost(layout@)))
        },
    }
}

} // verus!
