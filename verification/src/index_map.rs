//! An insertion-ordered set of names with a linear-probing hash index.
use vstd::prelude::*;
use crate::hash::{FxHasher, add_word, hash_bytes_of, rotl};
use crate::name::Name;
use crate::order::{Rank, compare_texts};

verus! {

/// Marks an empty slot of the index.
pub const EMPTY: u32 = u32::MAX;

/// Seed of the hasher that places names.
pub const SEED: u64 = 0x517c_c1b7_2722_0a95;

/// Names in insertion order, found again through a table of
/// `(hash, position)` slots probed linearly from `hash % capacity`.
pub struct IndexMap<S> {
    entries: Vec<S>,
    table: Vec<(u64, u32)>,
    /// The hash each entry was inserted with.
    hashes: Ghost<Seq<u64>>,
}

/// Slots `home, home + 1, ...` (around the end) up to `p`: how far `p` is
/// from `home`.
pub open spec fn probe_dist(home: int, p: int, cap: int) -> int {
    if p >= home {
        p - home
    } else {
        p + cap - home
    }
}

/// Number of occupied slots of `t[..k]`.
pub open spec fn occupied_count(t: Seq<(u64, u32)>, k: int) -> nat
    decreases k,
{
    if k <= 0 || k > t.len() {
        0
    } else {
        occupied_count(t, k - 1) + if t[k - 1].1 != EMPTY {
            1nat
        } else {
            0nat
        }
    }
}

/// A table whose occupied slots are fewer than its length has an empty slot.
proof fn lemma_some_empty(t: Seq<(u64, u32)>, k: int)
    requires
        0 <= k <= t.len(),
        occupied_count(t, k) < k,
    ensures
        exists|p: int| 0 <= p < k && #[trigger] t[p].1 == EMPTY,
    decreases k,
{
    if t[k - 1].1 == EMPTY {
        assert(t[k - 1].1 == EMPTY);
    } else {
        lemma_some_empty(t, k - 1);
        let p = choose|p: int| 0 <= p < k - 1 && #[trigger] t[p].1 == EMPTY;
        assert(t[p].1 == EMPTY);
    }
}

proof fn lemma_count_bound(t: Seq<(u64, u32)>, k: int)
    requires
        0 <= k <= t.len(),
    ensures
        occupied_count(t, k) <= k,
    decreases k,
{
    if k > 0 {
        lemma_count_bound(t, k - 1);
    }
}

/// Filling an empty slot adds one to the count of the prefixes past it.
proof fn lemma_count_fill(t: Seq<(u64, u32)>, q: int, v: (u64, u32), k: int)
    requires
        0 <= q < t.len(),
        0 <= k <= t.len(),
        t[q].1 == EMPTY,
        v.1 != EMPTY,
    ensures
        occupied_count(t.update(q, v), k) == occupied_count(t, k) + if q < k {
            1nat
        } else {
            0nat
        },
    decreases k,
{
    if k > 0 {
        lemma_count_fill(t, q, v, k - 1);
    }
}

/// The slots probed from `home` before `p` are all occupied.
pub open spec fn path_full(t: Seq<(u64, u32)>, home: int, p: int) -> bool {
    let cap = t.len() as int;
    forall|d: int| 0 <= d < probe_dist(home, p, cap) ==> #[trigger] t[(home + d) % cap].1 != EMPTY
}

/// The slot that entry `e` lives in.
pub open spec fn holds(t: Seq<(u64, u32)>, p: int, e: int) -> bool {
    0 <= p < t.len() && t[p].1 == e
}

/// Placement invariant of a table for `n` entries with hashes `hashes`.
pub open spec fn table_ok(t: Seq<(u64, u32)>, hashes: Seq<u64>, n: nat) -> bool {
    let cap = t.len() as int;
    &&& hashes.len() == n
    &&& cap == 0 ==> n == 0
    &&& cap > 0 ==> n * 4 <= cap * 3
    &&& cap == 0 || cap >= 16
    &&& cap <= usize::MAX
    &&& n < u32::MAX
    &&& occupied_count(t, cap) == n
    &&& forall|p: int|
        0 <= p < cap && #[trigger] t[p].1 != EMPTY ==> {
            &&& t[p].1 < n
            &&& t[p].0 == hashes[t[p].1 as int]
            &&& path_full(t, (t[p].0 % cap as u64) as int, p)
        }
    &&& forall|e: int| 0 <= e < n ==> #[trigger] placed(t, e)
}

/// Entry `e` has a slot.
pub open spec fn placed(t: Seq<(u64, u32)>, e: int) -> bool {
    exists|p: int| #[trigger] holds(t, p, e)
}

/// The hash a name is placed by: its bytes, then the byte 0xff, written to
/// a hasher seeded with `SEED`, finished.
pub open spec fn fixed_hash(name: Seq<char>) -> u64 {
    rotl(add_word(add_word(SEED, hash_bytes_of(ascii_bytes(name))), 0xff), 26)
}

/// The bytes of an ASCII text.
pub open spec fn ascii_bytes(s: Seq<char>) -> Seq<u8> {
    s.map_values(|c: char| c as u8)
}

/// Every occupied slot holds an entry below `bound` with its hash, reached
/// from its home slot over occupied slots only.
pub open spec fn probe_ok(t: Seq<(u64, u32)>, hashes: Seq<u64>, bound: nat) -> bool {
    let cap = t.len() as int;
    forall|p: int|
        0 <= p < cap && #[trigger] t[p].1 != EMPTY ==> {
            &&& t[p].1 < bound
            &&& t[p].1 < hashes.len()
            &&& t[p].0 == hashes[t[p].1 as int]
            &&& path_full(t, (t[p].0 % cap as u64) as int, p)
        }
}

proof fn lemma_dist_mod(home: int, p: int, cap: int)
    requires
        0 <= home < cap,
        0 <= p < cap,
    ensures
        0 <= probe_dist(home, p, cap) < cap,
        (home + probe_dist(home, p, cap)) % cap == p,
{
    if p >= home {
        vstd::arithmetic::div_mod::lemma_small_mod(p as nat, cap as nat);
    } else {
        vstd::arithmetic::div_mod::lemma_mod_add_multiples_vanish(p, cap);
        vstd::arithmetic::div_mod::lemma_small_mod(p as nat, cap as nat);
    }
}

proof fn lemma_mod_inj(home: int, a: int, b: int, cap: int)
    requires
        0 <= home < cap,
        0 <= a < cap,
        0 <= b < cap,
        (home + a) % cap == (home + b) % cap,
    ensures
        a == b,
{
    vstd::arithmetic::div_mod::lemma_fundamental_div_mod(home + a, cap);
    vstd::arithmetic::div_mod::lemma_fundamental_div_mod(home + b, cap);
    assert(0 <= (home + a) / cap <= 1) by {
        vstd::arithmetic::div_mod::lemma_div_is_ordered(home + a, 2 * cap, cap);
        vstd::arithmetic::div_mod::lemma_div_multiples_vanish(2, cap);
        vstd::arithmetic::div_mod::lemma_div_pos_is_pos(home + a, cap);
    }
    assert(0 <= (home + b) / cap <= 1) by {
        vstd::arithmetic::div_mod::lemma_div_is_ordered(home + b, 2 * cap, cap);
        vstd::arithmetic::div_mod::lemma_div_multiples_vanish(2, cap);
        vstd::arithmetic::div_mod::lemma_div_pos_is_pos(home + b, cap);
    }
    let qa = (home + a) / cap;
    let qb = (home + b) / cap;
    let r = (home + a) % cap;
    assert(home + a == cap * qa + r);
    assert(home + b == cap * qb + r);
    assert(a - b == cap * (qa - qb)) by (nonlinear_arith)
        requires
            home + a == cap * qa + r,
            home + b == cap * qb + r,
    ;
    if qa != qb {
        assert(cap * (qa - qb) == cap || cap * (qa - qb) == -cap) by (nonlinear_arith)
            requires
                qa - qb == 1 || qa - qb == -1,
        ;
    }
}

/// Puts `(hash, e)` into the first empty slot probed from `hash % cap`.
fn place(table: &mut Vec<(u64, u32)>, hash: u64, e: u32, Ghost(hashes): Ghost<Seq<u64>>, Ghost(bound): Ghost<nat>) -> (q: usize)
    requires
        old(table)@.len() > 0,
        occupied_count(old(table)@, old(table)@.len() as int) < old(table)@.len(),
        probe_ok(old(table)@, hashes, bound),
        e < bound,
        e < hashes.len(),
        hashes[e as int] == hash,
        e != EMPTY,
    ensures
        q < old(table)@.len(),
        old(table)@[q as int].1 == EMPTY,
        final(table)@ == old(table)@.update(q as int, (hash, e)),
        probe_ok(final(table)@, hashes, bound),
        occupied_count(final(table)@, final(table)@.len() as int) == occupied_count(old(table)@, old(table)@.len() as int) + 1,
{
    let ghost t = table@;
    let cap = table.len();
    let home = (hash % (cap as u64)) as usize;
    let mut i = home;
    let ghost mut steps: int = 0;
    proof {
        assert(home < cap);
        vstd::arithmetic::div_mod::lemma_small_mod(home as nat, cap as nat);
    }
    while table[i].1 != EMPTY
        invariant
            table@ == t,
            cap == t.len(),
            cap > 0,
            occupied_count(t, cap as int) < cap,
            home == (hash % (cap as u64)) as int,
            home < cap,
            0 <= steps < cap,
            i == (home + steps) % (cap as int),
            forall|d: int| 0 <= d < steps ==> #[trigger] t[(home + d) % (cap as int)].1 != EMPTY,
        decreases cap - steps,
    {
        proof {
            if steps + 1 == cap {
                lemma_some_empty(t, cap as int);
                let p = choose|p: int| 0 <= p < cap && #[trigger] t[p].1 == EMPTY;
                lemma_dist_mod(home as int, p, cap as int);
                let d = probe_dist(home as int, p, cap as int);
                if d < steps {
                    assert(t[(home + d) % (cap as int)].1 != EMPTY);
                } else {
                    assert(d == steps);
                }
                assert(false);
            }
            assert((home + (steps + 1)) % (cap as int) == (i + 1) % (cap as int)) by {
                vstd::arithmetic::div_mod::lemma_add_mod_noop(home + steps, 1, cap as int);
                vstd::arithmetic::div_mod::lemma_mod_twice(home + steps, cap as int);
                vstd::arithmetic::div_mod::lemma_add_mod_noop(i as int, 1, cap as int);
                vstd::arithmetic::div_mod::lemma_mod_twice(1, cap as int);
            }
            if i + 1 == cap {
                vstd::arithmetic::div_mod::lemma_mod_self_0(cap as int);
            } else {
                vstd::arithmetic::div_mod::lemma_small_mod((i + 1) as nat, cap as nat);
            }
        }
        i = if i + 1 == cap { 0 } else { i + 1 };
        proof {
            steps = steps + 1;
        }
    }
    table.set(i, (hash, e));
    proof {
        let t2 = table@;
        lemma_count_fill(t, i as int, (hash, e), cap as int);
        lemma_dist_mod(home as int, i as int, cap as int);
        assert(probe_dist(home as int, i as int, cap as int) == steps) by {
            lemma_mod_inj(home as int, probe_dist(home as int, i as int, cap as int), steps, cap as int);
        }
        assert forall|p: int| 0 <= p < cap && #[trigger] t2[p].1 != EMPTY implies {
            &&& t2[p].1 < bound
            &&& t2[p].1 < hashes.len()
            &&& t2[p].0 == hashes[t2[p].1 as int]
            &&& path_full(t2, (t2[p].0 % cap as u64) as int, p)
        } by {
            let hp = (t2[p].0 % cap as u64) as int;
            if p == i {
                assert forall|d: int| 0 <= d < probe_dist(hp, p, cap as int) implies #[trigger] t2[(hp + d) % (cap as int)].1 != EMPTY by {
                    let x = (hp + d) % (cap as int);
                    if x == i {
                        lemma_mod_inj(hp, d, steps, cap as int);
                    }
                }
            } else {
                assert(t[p] == t2[p]);
                assert(path_full(t, hp, p));
                assert forall|d: int| 0 <= d < probe_dist(hp, p, cap as int) implies #[trigger] t2[(hp + d) % (cap as int)].1 != EMPTY by {
                    assert(t[(hp + d) % (cap as int)].1 != EMPTY);
                }
            }
        }
    }
    i
}

/// A prefix of a table counts no more than a longer one.
proof fn lemma_count_mono(t: Seq<(u64, u32)>, a: int, b: int)
    requires
        0 <= a <= b <= t.len(),
    ensures
        occupied_count(t, a) <= occupied_count(t, b),
    decreases b - a,
{
    if a < b {
        lemma_count_mono(t, a, b - 1);
    }
}

/// A table of empty slots counts none.
proof fn lemma_count_empty(t: Seq<(u64, u32)>, k: int)
    requires
        0 <= k <= t.len(),
        forall|p: int| 0 <= p < t.len() ==> #[trigger] t[p].1 == EMPTY,
    ensures
        occupied_count(t, k) == 0,
    decreases k,
{
    if k > 0 {
        lemma_count_empty(t, k - 1);
    }
}

impl IndexMap<Name> {
    /// Doubles the table, to at least 16 slots, and places every entry
    /// again.
    fn grow(&mut self)
        requires
            old(self).wf(),
            (old(self).names().len() + 1) * 4 > old(self).table@.len() * 3,
            old(self).names().len() + 1 < u32::MAX,
            (old(self).names().len() + 1) * 3 <= usize::MAX,
        ensures
            final(self).wf(),
            final(self).names() == old(self).names(),
            final(self).hashes() == old(self).hashes(),
            (final(self).names().len() + 1) * 4 <= final(self).table@.len() * 3,
    {
        let ghost hashes = self.hashes@;
        let ghost n = self.entries@.len();
        let cap = self.table.len();
        let cap2 = if cap * 2 > 16 { cap * 2 } else { 16 };
        let mut old_table: Vec<(u64, u32)> = Vec::new();
        let mut j: usize = 0;
        while j < cap2
            invariant
                j <= cap2,
                self.entries@ == old(self).entries@,
                self.hashes@ == old(self).hashes@,
                self.table@ == old(self).table@,
                old_table@.len() == j,
                forall|p: int| 0 <= p < j ==> #[trigger] old_table@[p].1 == EMPTY,
            decreases cap2 - j,
        {
            old_table.push((0u64, EMPTY));
            j = j + 1;
        }
        proof {
            lemma_count_empty(old_table@, cap2 as int);
        }
        core::mem::swap(&mut old_table, &mut self.table);
        let ghost t = old_table@;
        let mut k: usize = 0;
        while k < cap
            invariant
                k <= cap,
                cap == t.len(),
                t == old_table@,
                self.entries@ == old(self).entries@,
                self.hashes@ == hashes,
                n == self.entries@.len(),
                table_ok(t, hashes, n),
                self.table@.len() == cap2,
                cap2 > n,
                n < u32::MAX,
                hashes.len() == n,
                probe_ok(self.table@, hashes, n),
                occupied_count(self.table@, cap2 as int) == occupied_count(t, k as int),
                forall|p: int| 0 <= p < k && #[trigger] t[p].1 != EMPTY ==> placed(self.table@, t[p].1 as int),
            decreases cap - k,
        {
            let (h, e) = old_table[k];
            proof {
                lemma_count_mono(t, k as int + 1, cap as int);
                assert(occupied_count(t, k as int + 1) == occupied_count(t, k as int) + if t[k as int].1 != EMPTY { 1nat } else { 0nat });
            }
            if e != EMPTY {
                let ghost before = self.table@;
                let q = place(&mut self.table, h, e, Ghost(hashes), Ghost(n));
                proof {
                    assert(holds(self.table@, q as int, e as int));
                    assert forall|p: int| 0 <= p < k + 1 && #[trigger] t[p].1 != EMPTY implies placed(self.table@, t[p].1 as int) by {
                        if p < k {
                            assert(placed(before, t[p].1 as int));
                            let x = choose|x: int| #[trigger] holds(before, x, t[p].1 as int);
                            assert(x != q);
                            assert(holds(self.table@, x, t[p].1 as int));
                        } else {
                            assert(holds(self.table@, q as int, t[p].1 as int));
                        }
                    }
                }
            }
            k = k + 1;
        }
        proof {
            let t2 = self.table@;
            assert forall|e: int| 0 <= e < n implies #[trigger] placed(t2, e) by {
                assert(placed(t, e));
                let p = choose|p: int| #[trigger] holds(t, p, e);
                assert(t[p].1 != EMPTY);
            }
        }
    }

    /// Adds `stable_id` as the next entry, placed by hash `hash`, without
    /// looking whether it is already present; gives its position.
    pub fn insert_by_hash_unchecked(&mut self, hash: u64, stable_id: Name) -> (r: u32)
        requires
            old(self).wf(),
            old(self).names().len() + 1 < u32::MAX,
            (old(self).names().len() + 1) * 3 <= usize::MAX,
        ensures
            final(self).wf(),
            r == old(self).names().len(),
            final(self).names() == old(self).names().push(stable_id@),
            final(self).hashes() == old(self).hashes().push(hash),
    {
        let n = self.entries.len();
        let cap = self.table.len();
        if ((n as u128) + 1) * 4 > (cap as u128) * 3 {
            self.grow();
        }
        let ghost t = self.table@;
        let ghost old_hashes = self.hashes@;
        let ghost hashes = old_hashes.push(hash);
        let index = n as u32;
        proof {
            assert(probe_ok(t, hashes, (n + 1) as nat)) by {
                assert forall|p: int| 0 <= p < t.len() && #[trigger] t[p].1 != EMPTY implies t[p].1 < hashes.len()
                    && t[p].0 == hashes[t[p].1 as int] by {
                    assert(t[p].1 < n);
                }
            }
            lemma_count_bound(t, t.len() as int);
        }
        let q = place(&mut self.table, hash, index, Ghost(hashes), Ghost((n + 1) as nat));
        self.hashes = Ghost(hashes);
        self.entries.push(stable_id);
        proof {
            assert(self.names() =~= old(self).names().push(stable_id@));
            let t2 = self.table@;
            assert forall|e: int| 0 <= e < n + 1 implies #[trigger] placed(t2, e) by {
                if e < n {
                    assert(placed(t, e));
                    let x = choose|x: int| #[trigger] holds(t, x, e);
                    assert(x != q);
                    assert(holds(t2, x, e));
                } else {
                    assert(holds(t2, q as int, e));
                }
            }
        }
        index
    }

    /// The names, in insertion order.
    pub closed spec fn names(&self) -> Seq<Seq<char>> {
        self.entries@.map_values(|n: Name| n@)
    }

    /// The hash each name was inserted with.
    pub closed spec fn hashes(&self) -> Seq<u64> {
        self.hashes@
    }

    pub closed spec fn wf(&self) -> bool {
        table_ok(self.table@, self.hashes@, self.entries@.len())
    }

    /// An empty map.
    pub fn new() -> (r: Self)
        ensures
            r.wf(),
            r.names() == Seq::<Seq<char>>::empty(),
    {
        let r = IndexMap { entries: Vec::new(), table: Vec::new(), hashes: Ghost(Seq::empty()) };
        proof {
            assert(r.names() =~= Seq::<Seq<char>>::empty());
        }
        r
    }

    /// The hash that `find` looks `stable_id` up by.
    pub fn fixed_hash_of(stable_id: &Name) -> (r: u64)
        ensures
            r == fixed_hash(stable_id@),
    {
        let mut hasher = FxHasher::with_state(SEED);
        let text = stable_id.as_str();
        let bytes = text.as_bytes();
        proof {
            vstd::string::is_ascii_spec_bytes(text);
            assert(bytes@ =~= ascii_bytes(stable_id@));
        }
        hasher.write(bytes);
        hasher.write_u8(0xff);
        hasher.finish()
    }

    /// Finds `stable_id`, placed by its fixed hash.
    pub fn find(&self, stable_id: &Name) -> (r: Option<u32>)
        requires
            self.wf(),
        ensures
            match r {
                Some(e) => e < self.names().len() && self.names()[e as int] == stable_id@ && self.hashes()[e as int]
                    == fixed_hash(stable_id@),
                None => forall|e: int|
                    0 <= e < self.names().len() ==> !(self.names()[e] == stable_id@ && self.hashes()[e] == fixed_hash(
                        stable_id@,
                    )),
            },
    {
        self.find_by_hash(Self::fixed_hash_of(stable_id), stable_id)
    }

    /// Finds an entry equal to `stable_id` inserted with hash `hash`.
    pub fn find_by_hash(&self, hash: u64, stable_id: &Name) -> (r: Option<u32>)
        requires
            self.wf(),
        ensures
            match r {
                Some(e) => e < self.names().len() && self.names()[e as int] == stable_id@ && self.hashes()[e as int]
                    == hash,
                None => forall|e: int|
                    0 <= e < self.names().len() ==> !(self.names()[e] == stable_id@ && self.hashes()[e] == hash),
            },
    {
        let cap = self.table.len();
        if cap == 0 {
            return None;
        }
        let ghost t = self.table@;
        let ghost n = self.entries@.len();
        let key = stable_id.chars();
        let home = (hash % (cap as u64)) as usize;
        let mut i = home;
        let mut steps: usize = 0;
        proof {
            assert(home < cap);
            vstd::arithmetic::div_mod::lemma_small_mod(home as nat, cap as nat);
        }
        while steps < cap
            invariant
                cap == t.len(),
                t == self.table@,
                cap > 0,
                n == self.entries@.len(),
                self.wf(),
                key@ == stable_id@,
                home == (hash % (cap as u64)) as int,
                steps <= cap,
                i == (home + steps) % (cap as int),
                forall|d: int|
                    0 <= d < steps ==> #[trigger] t[(home + d) % (cap as int)].1 != EMPTY && !(self.names()[t[(home + d)
                        % (cap as int)].1 as int] == stable_id@ && t[(home + d) % (cap as int)].0 == hash),
            decreases cap - steps,
        {
            let (h, entry) = self.table[i];
            if entry == EMPTY {
                proof {
                    self.lemma_absent(hash, stable_id@, steps as int);
                }
                return None;
            }
            proof {
                assert(t[i as int].1 < n);
                assert(self.names()[entry as int] == self.entries@[entry as int]@);
            }
            if h == hash {
                match compare_texts(self.entries[entry as usize].chars(), key) {
                    Rank::Same => {
                        return Some(entry);
                    },
                    _ => {
                        proof {
                            crate::order::lemma_lt_irreflexive(stable_id@);
                        }
                    },
                }
            }
            proof {
                assert((home + (steps + 1)) % (cap as int) == (i + 1) % (cap as int)) by {
                    vstd::arithmetic::div_mod::lemma_add_mod_noop(home + steps, 1, cap as int);
                    vstd::arithmetic::div_mod::lemma_mod_twice(home + steps, cap as int);
                    vstd::arithmetic::div_mod::lemma_add_mod_noop(i as int, 1, cap as int);
                    vstd::arithmetic::div_mod::lemma_mod_twice(1, cap as int);
                }
            }
            proof {
                if i + 1 == cap {
                    vstd::arithmetic::div_mod::lemma_mod_self_0(cap as int);
                } else {
                    vstd::arithmetic::div_mod::lemma_small_mod((i + 1) as nat, cap as nat);
                }
            }
            i = if i + 1 == cap { 0 } else { i + 1 };
            steps = steps + 1;
        }
        proof {
            self.lemma_absent(hash, stable_id@, cap as int);
        }
        None
    }

    /// When the probe from the hash's home passed `steps` occupied slots
    /// without a match and then met an empty one (or went all around), no
    /// entry matches.
    proof fn lemma_absent(&self, hash: u64, name: Seq<char>, steps: int)
        requires
            self.wf(),
            self.table@.len() > 0,
            0 <= steps <= self.table@.len(),
            ({
                let t = self.table@;
                let cap = t.len() as int;
                let home = (hash % (cap as u64)) as int;
                &&& forall|d: int|
                    0 <= d < steps ==> #[trigger] t[(home + d) % cap].1 != EMPTY && !(self.names()[t[(home + d)
                        % cap].1 as int] == name && t[(home + d) % cap].0 == hash)
                &&& steps < cap ==> t[(home + steps) % cap].1 == EMPTY
            }),
        ensures
            forall|e: int| 0 <= e < self.names().len() ==> !(self.names()[e] == name && self.hashes()[e] == hash),
    {
        let t = self.table@;
        let cap = t.len() as int;
        let home = (hash % (cap as u64)) as int;
        assert forall|e: int| 0 <= e < self.names().len() implies !(self.names()[e] == name && self.hashes()[e] == hash) by {
            if self.names()[e] == name && self.hashes()[e] == hash {
                assert(placed(t, e));
                let p = choose|p: int| #[trigger] holds(t, p, e);
                assert(t[p].1 != EMPTY);
                let d = probe_dist(home, p, cap);
                assert(0 <= d < cap);
                assert((home + d) % cap == p) by {
                    if p >= home {
                        vstd::arithmetic::div_mod::lemma_small_mod(p as nat, cap as nat);
                    } else {
                        vstd::arithmetic::div_mod::lemma_mod_add_multiples_vanish(p, cap);
                        vstd::arithmetic::div_mod::lemma_small_mod(p as nat, cap as nat);
                    }
                }
                if d < steps {
                    assert(t[(home + d) % cap].1 != EMPTY);
                } else if d == steps {
                    assert(t[(home + steps) % cap].1 == EMPTY);
                } else {
                    assert(path_full(t, (t[p].0 % cap as u64) as int, p));
                    assert(t[(home + steps) % cap].1 != EMPTY);
                }
            }
        }
    }

    /// Number of names.
    pub fn len(&self) -> (r: usize)
        ensures
            r == self.names().len(),
    {
        self.entries.len()
    }

    /// The names, in insertion order.
    pub fn iter(&self) -> (r: &[Name])
        ensures
            r@.map_values(|n: Name| n@) == self.names(),
    {
        self.entries.as_slice()
    }
}

impl Default for IndexMap<Name> {
    fn default() -> (r: Self)
        ensures
            r.wf(),
            r.names() == Seq::<Seq<char>>::empty(),
    {
        IndexMap::new()
    }
}

impl core::ops::Index<usize> for IndexMap<Name> {
    type Output = Name;

    fn index(&self, index: usize) -> (r: &Name)
        ensures
            r@ == self.names()[index as int],
    {
        &self.entries[index]
    }
}

impl vstd::std_specs::core::IndexSpecImpl<usize> for IndexMap<Name> {
    open spec fn index_req(&self, index: &usize) -> bool {
        *index < self.names().len()
    }
}

} // verus!
