//! Lexicographic order on character sequences, the order in which names
//! are kept.
use vstd::prelude::*;

verus! {

/// Result of comparing two texts.
#[derive(PartialEq, Eq, Clone, Copy, Debug)]
pub enum Rank {
    Before,
    Same,
    After,
}

/// `a` sorts strictly before `b`: at the first position where they differ
/// `a` has the smaller character, or `a` is a proper prefix of `b`.
pub open spec fn text_lt(a: Seq<char>, b: Seq<char>) -> bool
    decreases a.len(),
{
    if a.len() == 0 {
        b.len() > 0
    } else if b.len() == 0 {
        false
    } else if a[0] != b[0] {
        a[0] < b[0]
    } else {
        text_lt(a.drop_first(), b.drop_first())
    }
}

pub open spec fn text_le(a: Seq<char>, b: Seq<char>) -> bool {
    text_lt(a, b) || a == b
}

/// `p` is a prefix of `s`.
pub open spec fn is_prefix(p: Seq<char>, s: Seq<char>) -> bool {
    p.len() <= s.len() && s.subrange(0, p.len() as int) == p
}

/// The rank of `a` relative to `b`.
pub open spec fn rank_of(a: Seq<char>, b: Seq<char>) -> Rank {
    if text_lt(a, b) {
        Rank::Before
    } else if a == b {
        Rank::Same
    } else {
        Rank::After
    }
}

pub proof fn lemma_lt_irreflexive(a: Seq<char>)
    ensures
        !text_lt(a, a),
    decreases a.len(),
{
    if a.len() > 0 {
        lemma_lt_irreflexive(a.drop_first());
    }
}

/// Exactly one of `a < b`, `a == b`, `b < a` holds.
pub proof fn lemma_lt_trichotomy(a: Seq<char>, b: Seq<char>)
    ensures
        text_lt(a, b) || a == b || text_lt(b, a),
        !(text_lt(a, b) && text_lt(b, a)),
        a == b ==> !text_lt(a, b),
    decreases a.len(),
{
    lemma_lt_irreflexive(a);
    if a.len() > 0 && b.len() > 0 && a[0] == b[0] {
        lemma_lt_trichotomy(a.drop_first(), b.drop_first());
        if a.drop_first() == b.drop_first() {
            assert(a =~= seq![a[0]] + a.drop_first());
            assert(b =~= seq![b[0]] + b.drop_first());
        }
    } else if a.len() == 0 && b.len() == 0 {
        assert(a =~= b);
    }
}

pub proof fn lemma_lt_transitive(a: Seq<char>, b: Seq<char>, c: Seq<char>)
    requires
        text_lt(a, b),
        text_lt(b, c),
    ensures
        text_lt(a, c),
    decreases a.len(),
{
    if a.len() > 0 && b.len() > 0 && c.len() > 0 && a[0] == b[0] && b[0] == c[0] {
        lemma_lt_transitive(a.drop_first(), b.drop_first(), c.drop_first());
    }
}

pub proof fn lemma_le_transitive(a: Seq<char>, b: Seq<char>, c: Seq<char>)
    requires
        text_le(a, b),
        text_le(b, c),
    ensures
        text_le(a, c),
{
    if text_lt(a, b) && text_lt(b, c) {
        lemma_lt_transitive(a, b, c);
    }
}

/// Nothing that starts with `p` sorts before `p`.
pub proof fn lemma_prefix_not_before(p: Seq<char>, s: Seq<char>)
    requires
        is_prefix(p, s),
    ensures
        !text_lt(s, p),
    decreases p.len(),
{
    if p.len() > 0 {
        assert(s[0] == p[0]);
        assert(is_prefix(p.drop_first(), s.drop_first())) by {
            assert(s.drop_first().subrange(0, p.len() - 1) =~= s.subrange(0, p.len() as int).drop_first());
        }
        lemma_prefix_not_before(p.drop_first(), s.drop_first());
    }
}

/// The texts that start with `p` form a contiguous block of the order:
/// whatever lies between `p` and a text starting with `p` starts with `p`.
pub proof fn lemma_prefix_between(p: Seq<char>, x: Seq<char>, y: Seq<char>)
    requires
        text_le(p, x),
        text_le(x, y),
        is_prefix(p, y),
    ensures
        is_prefix(p, x),
    decreases p.len(),
{
    if p.len() == 0 {
        assert(x.subrange(0, 0) =~= p);
    } else if x == y {
    } else if p == x {
        assert(x.subrange(0, p.len() as int) =~= p);
    } else {
        assert(y[0] == p[0]);
        assert(x.len() > 0);
        // p < x <= y, and p, y agree on their first character
        if x[0] != p[0] {
            // p[0] < x[0] and x[0] <= y[0] == p[0]: impossible
            if x[0] != y[0] {
            }
            assert(false);
        }
        let p1 = p.drop_first();
        let x1 = x.drop_first();
        let y1 = y.drop_first();
        assert(is_prefix(p1, y1)) by {
            assert(y1.subrange(0, p1.len() as int) =~= y.subrange(0, p.len() as int).drop_first());
        }
        if x1 == y1 {
            assert(x =~= y) by {
                assert(x =~= seq![x[0]] + x1);
                assert(y =~= seq![y[0]] + y1);
            }
        }
        if p1 == x1 {
            assert(p =~= x) by {
                assert(x =~= seq![x[0]] + x1);
                assert(p =~= seq![p[0]] + p1);
            }
        }
        lemma_prefix_between(p1, x1, y1);
        assert(x.subrange(0, p.len() as int) =~= seq![x[0]] + x1.subrange(0, p1.len() as int));
        assert(p =~= seq![p[0]] + p1);
    }
}

/// Compares two texts.
pub fn compare_texts(a: &Vec<char>, b: &Vec<char>) -> (r: Rank)
    ensures
        r == rank_of(a@, b@),
{
    let n = a.len();
    let m = b.len();
    let mut i: usize = 0;
    proof {
        assert(a@.skip(0) =~= a@);
        assert(b@.skip(0) =~= b@);
    }
    while i < n && i < m && a[i] == b[i]
        invariant
            i <= n,
            i <= m,
            n == a@.len(),
            m == b@.len(),
            a@.subrange(0, i as int) == b@.subrange(0, i as int),
            text_lt(a@, b@) == text_lt(a@.skip(i as int), b@.skip(i as int)),
            text_lt(b@, a@) == text_lt(b@.skip(i as int), a@.skip(i as int)),
        decreases n - i,
    {
        assert(a@.skip(i as int).drop_first() =~= a@.skip(i + 1));
        assert(b@.skip(i as int).drop_first() =~= b@.skip(i + 1));
        assert(a@.subrange(0, i + 1) =~= a@.subrange(0, i as int).push(a@[i as int]));
        assert(b@.subrange(0, i + 1) =~= b@.subrange(0, i as int).push(b@[i as int]));
        i = i + 1;
    }
    proof {
        lemma_lt_trichotomy(a@, b@);
    }
    if i < n && i < m {
        if a[i] < b[i] {
            Rank::Before
        } else {
            Rank::After
        }
    } else if i == n && i == m {
        proof {
            assert(a@ =~= a@.subrange(0, i as int));
            assert(b@ =~= b@.subrange(0, i as int));
        }
        Rank::Same
    } else if i == n {
        Rank::Before
    } else {
        Rank::After
    }
}

/// Whether `p` is a prefix of `s`.
pub fn starts_with(s: &Vec<char>, p: &Vec<char>) -> (r: bool)
    ensures
        r == is_prefix(p@, s@),
{
    if p.len() > s.len() {
        return false;
    }
    let mut i: usize = 0;
    while i < p.len()
        invariant
            i <= p@.len(),
            p@.len() <= s@.len(),
            s@.subrange(0, i as int) == p@.subrange(0, i as int),
        decreases p@.len() - i,
    {
        if s[i] != p[i] {
            proof {
                assert(s@.subrange(0, p@.len() as int)[i as int] == s@[i as int]);
            }
            return false;
        }
        proof {
            assert(s@.subrange(0, i + 1) =~= s@.subrange(0, i as int).push(s@[i as int]));
            assert(p@.subrange(0, i + 1) =~= p@.subrange(0, i as int).push(p@[i as int]));
        }
        i = i + 1;
    }
    proof {
        assert(p@.subrange(0, p@.len() as int) =~= p@);
    }
    true
}

} // verus!
