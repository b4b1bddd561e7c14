//! Counting facts about permutations of `0..n` and slot tables.
use vstd::prelude::*;
use vstd::set_lib::lemma_subset_equality;

verus! {

broadcast use vstd::seq_lib::group_seq_properties, vstd::set::group_set_axioms;

/// The identity sequence `0, 1, ..., n - 1`.
pub open spec fn ids_upto(n: nat) -> Seq<u32> {
    Seq::new(n, |i: int| i as u32)
}

/// `s` lists every number below `n` exactly once.
pub open spec fn is_perm(s: Seq<u32>, n: nat) -> bool {
    &&& s.len() == n
    &&& s.no_duplicates()
    &&& forall|k: int| 0 <= k < s.len() ==> s[k] < n
}

/// Number of positions `k` of `s` with `table[s[k]]` empty.
pub open spec fn count_empty_at(s: Seq<u32>, table: Seq<Option<u32>>) -> nat
    decreases s.len(),
{
    if s.len() == 0 {
        0
    } else {
        count_empty_at(s.drop_last(), table) + if table[s.last() as int] is None {
            1nat
        } else {
            0nat
        }
    }
}

/// Number of empty cells of `table`.
pub open spec fn count_empty(table: Seq<Option<u32>>) -> nat {
    count_empty_at(ids_upto(table.len()), table)
}

pub proof fn lemma_count_concat(a: Seq<u32>, b: Seq<u32>, table: Seq<Option<u32>>)
    ensures
        count_empty_at(a + b, table) == count_empty_at(a, table) + count_empty_at(b, table),
    decreases b.len(),
{
    if b.len() == 0 {
        assert(a + b =~= a);
    } else {
        assert((a + b).drop_last() =~= a + b.drop_last());
        lemma_count_concat(a, b.drop_last(), table);
    }
}

pub proof fn lemma_count_bound(s: Seq<u32>, table: Seq<Option<u32>>)
    ensures
        count_empty_at(s, table) <= s.len(),
    decreases s.len(),
{
    if s.len() > 0 {
        lemma_count_bound(s.drop_last(), table);
    }
}

/// A permutation of `0..n` reaches every number below `n`.
pub proof fn lemma_perm_onto(s: Seq<u32>, n: nat, x: u32)
    requires
        is_perm(s, n),
        x < n,
        n <= u32::MAX + 1,
    ensures
        s.contains(x),
{
    let a = s.to_set();
    let r = ids_upto(n).to_set();
    assert(a.subset_of(r)) by {
        assert forall|v: u32| a.contains(v) implies r.contains(v) by {
            let k = choose|k: int| 0 <= k < s.len() && s[k] == v;
            assert(ids_upto(n)[v as int] == v);
        }
    }
    s.unique_seq_to_set();
    assert(ids_upto(n).no_duplicates());
    ids_upto(n).unique_seq_to_set();
    lemma_subset_equality(a, r);
    assert(ids_upto(n)[x as int] == x);
    assert(r.contains(x));
}

/// Counting over a permutation of `0..n` is counting over `0..n`.
pub proof fn lemma_count_perm(s: Seq<u32>, n: nat, table: Seq<Option<u32>>)
    requires
        is_perm(s, n),
        n <= u32::MAX + 1,
    ensures
        count_empty_at(s, table) == count_empty_at(ids_upto(n), table),
    decreases n,
{
    if n == 0 {
        assert(s =~= ids_upto(n));
    } else {
        let top = (n - 1) as u32;
        lemma_perm_onto(s, n, top);
        let j = choose|j: int| 0 <= j < s.len() && s[j] == top;
        let left = s.take(j);
        let right = s.skip(j + 1);
        let rest = left + right;
        assert(s =~= left + seq![top] + right);
        assert(is_perm(rest, (n - 1) as nat)) by {
            assert forall|k: int| 0 <= k < rest.len() implies rest[k] < n - 1 by {
                if k < j {
                    assert(rest[k] == s[k]);
                    assert(s[k] != s[j]);
                } else {
                    assert(rest[k] == s[k + 1]);
                    assert(s[k + 1] != s[j]);
                }
            }
            assert forall|k1: int, k2: int|
                0 <= k1 < rest.len() && 0 <= k2 < rest.len() && k1 != k2 implies rest[k1]
                != rest[k2] by {
                let i1 = if k1 < j {
                    k1
                } else {
                    k1 + 1
                };
                let i2 = if k2 < j {
                    k2
                } else {
                    k2 + 1
                };
                assert(rest[k1] == s[i1]);
                assert(rest[k2] == s[i2]);
            }
        }
        lemma_count_perm(rest, (n - 1) as nat, table);
        lemma_count_concat(left, right, table);
        lemma_count_concat(left + seq![top], right, table);
        lemma_count_concat(left, seq![top], table);
        assert(seq![top].drop_last() =~= Seq::<u32>::empty());
        assert(ids_upto(n).drop_last() =~= ids_upto((n - 1) as nat));
    }
}

/// Filling one empty cell leaves one empty cell less.
pub proof fn lemma_count_fill(table: Seq<Option<u32>>, i: int, v: u32)
    requires
        0 <= i < table.len(),
        table.len() <= u32::MAX + 1,
        table[i] is None,
    ensures
        count_empty(table.update(i, Some(v))) + 1 == count_empty(table),
{
    lemma_count_fill_prefix(table, i, v, table.len());
    assert(table.update(i, Some(v)).len() == table.len());
}

proof fn lemma_count_fill_prefix(table: Seq<Option<u32>>, i: int, v: u32, k: nat)
    requires
        0 <= i < table.len(),
        k <= table.len(),
        table.len() <= u32::MAX + 1,
        table[i] is None,
    ensures
        i < k ==> count_empty_at(ids_upto(k), table.update(i, Some(v))) + 1 == count_empty_at(
            ids_upto(k),
            table,
        ),
        i >= k ==> count_empty_at(ids_upto(k), table.update(i, Some(v))) == count_empty_at(
            ids_upto(k),
            table,
        ),
    decreases k,
{
    if k > 0 {
        assert(ids_upto(k).drop_last() =~= ids_upto((k - 1) as nat));
        lemma_count_fill_prefix(table, i, v, (k - 1) as nat);
    }
}

} // verus!
