//! Mixed-radix numbers: replacing one digit keeps the others.
use vstd::prelude::*;
use vstd::arithmetic::div_mod::{lemma_fundamental_div_mod, lemma_fundamental_div_mod_converse, lemma_div_denominator, lemma_mod_multiples_vanish};

verus! {

/// The digit of weight `st` and base `c` of `l`.
pub open spec fn digit_of(l: int, st: int, c: int) -> int {
    (l / st) % c
}

/// `l` with its digit of weight `st` and base `c` replaced by `v`.
pub open spec fn replace_digit(l: int, st: int, c: int, v: int) -> int {
    l - digit_of(l, st, c) * st + v * st
}

proof fn lemma_split(l: int, st: int, c: int)
    requires
        1 <= st,
        1 <= c,
        0 <= l,
    ensures
        l == (l / st / c) * (c * st) + digit_of(l, st, c) * st + l % st,
        0 <= l % st < st,
        0 <= digit_of(l, st, c) < c,
        0 <= l / st / c,
{
    let q = l / st;
    let r = l % st;
    lemma_fundamental_div_mod(l, st);
    lemma_fundamental_div_mod(q, c);
    let a = q / c;
    let d = q % c;
    assert(0 <= q) by (nonlinear_arith)
        requires
            0 <= l,
            1 <= st,
            q == l / st,
    ;
    assert(0 <= a) by (nonlinear_arith)
        requires
            0 <= q,
            1 <= c,
            a == q / c,
    ;
    assert(l == a * (c * st) + d * st + r) by (nonlinear_arith)
        requires
            l == st * q + r,
            q == c * a + d,
    ;
}

/// Replacing the digit of weight `st` and base `c` of a number below
/// `m * c * st` by `v < c` gives a number below the same bound whose digit
/// is `v`, with the lower part (`% st`) and the upper part (`/ (c * st)`)
/// unchanged.
pub proof fn lemma_replace_digit(l: int, st: int, c: int, v: int, m: int)
    requires
        1 <= st,
        1 <= c,
        1 <= m,
        0 <= l < m * (c * st),
        0 <= v < c,
    ensures
        0 <= digit_of(l, st, c) * st <= l,
        0 <= replace_digit(l, st, c, v) < m * (c * st),
        digit_of(replace_digit(l, st, c, v), st, c) == v,
        replace_digit(l, st, c, v) % st == l % st,
        replace_digit(l, st, c, v) / (c * st) == l / (c * st),
{
    lemma_split(l, st, c);
    let a = l / st / c;
    let d = digit_of(l, st, c);
    let r = l % st;
    let l2 = replace_digit(l, st, c, v);
    assert(l2 == a * (c * st) + v * st + r);
    assert(0 <= d * st) by (nonlinear_arith)
        requires
            0 <= d,
            1 <= st,
    ;
    assert(a * (c * st) >= 0) by (nonlinear_arith)
        requires
            0 <= a,
            1 <= c,
            1 <= st,
    ;
    assert(v * st + r < c * st) by (nonlinear_arith)
        requires
            0 <= v < c,
            0 <= r < st,
    ;
    assert(d * st + r < c * st) by (nonlinear_arith)
        requires
            0 <= d < c,
            0 <= r < st,
    ;
    assert(0 <= v * st) by (nonlinear_arith)
        requires
            0 <= v,
            1 <= st,
    ;
    assert(a < m) by (nonlinear_arith)
        requires
            a * (c * st) <= l,
            l < m * (c * st),
            1 <= c,
            1 <= st,
    ;
    assert(l2 < m * (c * st)) by (nonlinear_arith)
        requires
            l2 < a * (c * st) + c * st,
            a + 1 <= m,
            1 <= c,
            1 <= st,
    ;
    assert(l2 == (c * a + v) * st + r) by (nonlinear_arith)
        requires
            l2 == a * (c * st) + v * st + r,
    ;
    lemma_fundamental_div_mod_converse(l2, st, c * a + v, r);
    lemma_fundamental_div_mod_converse(c * a + v, c, a, v);
    lemma_fundamental_div_mod_converse(l2, c * st, a, v * st + r);
    lemma_fundamental_div_mod_converse(l, c * st, a, d * st + r);
}

/// A digit whose whole weight `c * st` divides `w` depends only on the
/// part below `w`.
pub proof fn lemma_low_digit_kept(x: int, y: int, w: int, q: int, st: int, c: int)
    requires
        0 <= x,
        0 <= y,
        1 <= q,
        1 <= c,
        1 <= st,
        w == q * (c * st),
        x % w == y % w,
    ensures
        digit_of(x, st, c) == digit_of(y, st, c),
{
    assert(w >= 1) by (nonlinear_arith)
        requires
            1 <= q,
            1 <= c,
            1 <= st,
            w == q * (c * st),
    ;
    lemma_low_digit(x, w, q, st, c);
    lemma_low_digit(y, w, q, st, c);
}

proof fn lemma_low_digit(x: int, w: int, q: int, st: int, c: int)
    requires
        0 <= x,
        1 <= q,
        1 <= c,
        1 <= st,
        w == q * (c * st),
        w >= 1,
    ensures
        digit_of(x, st, c) == digit_of(x % w, st, c),
{
    let a = x / w;
    let r = x % w;
    lemma_fundamental_div_mod(x, w);
    lemma_fundamental_div_mod(r, st);
    let b = r / st;
    let e = r % st;
    assert(0 <= a) by (nonlinear_arith)
        requires
            0 <= x,
            w >= 1,
            a == x / w,
    ;
    assert(x == (a * q * c + b) * st + e) by (nonlinear_arith)
        requires
            x == w * a + r,
            r == st * b + e,
            w == q * (c * st),
    ;
    lemma_fundamental_div_mod_converse(x, st, a * q * c + b, e);
    assert(a * q * c + b == c * (a * q) + b) by (nonlinear_arith);
    lemma_mod_multiples_vanish(a * q, b, c);
}

/// A digit whose weight is a multiple `q * p` of `p` depends only on the
/// part above `p`.
pub proof fn lemma_high_digit_kept(x: int, y: int, p: int, q: int, c: int)
    requires
        0 <= x,
        0 <= y,
        1 <= p,
        1 <= q,
        1 <= c,
        x / p == y / p,
    ensures
        digit_of(x, q * p, c) == digit_of(y, q * p, c),
{
    lemma_div_denominator(x, p, q);
    lemma_div_denominator(y, p, q);
    assert(q * p == p * q) by (nonlinear_arith);
    assert(x / (q * p) == y / (q * p));
}

} // verus!
