//! Arithmetic facts behind the coder: division by a fixed-point reciprocal,
//! big-endian words, and residues modulo the lane count.
use vstd::prelude::*;

use crate::model::two_pow_64;

verus! {

/// 2^48: every coding numerator stays below it.
pub open spec fn two_pow_48() -> int {
    0x1_0000_0000_0000
}

/// Multiplying by `ceil(2^64 / f)` and dropping 64 bits divides by `f`, for
/// every numerator below 2^48 and every frequency up to 2^16.
pub proof fn lemma_reciprocal_quotient(n: int, f: int, r: int)
    requires
        0 <= n < two_pow_48(),
        2 <= f <= 65536,
        two_pow_64() <= r * f < two_pow_64() + f,
    ensures
        (n * r) / two_pow_64() == n / f,
{
    let p = two_pow_64();
    let q = n / f;
    let t = n % f;
    let e = r * f - p;
    vstd::arithmetic::div_mod::lemma_fundamental_div_mod(n, f);
    vstd::arithmetic::div_mod::lemma_mod_bound(n, f);
    let x = n * r - q * p;
    assert(x * f == t * p + n * e) by (nonlinear_arith)
        requires
            x == n * r - q * p,
            e == r * f - p,
            n == f * q + t,
    ;
    assert(n * e < p) by (nonlinear_arith)
        requires
            0 <= n < two_pow_48(),
            0 <= e < f <= 65536,
            p == two_pow_64(),
    ;
    assert(0 <= x < p) by (nonlinear_arith)
        requires
            x * f == t * p + n * e,
            0 <= t < f,
            0 <= n,
            0 <= e,
            n * e < p,
            p > 0,
            f > 0,
    ;
    vstd::arithmetic::div_mod::lemma_fundamental_div_mod_converse(n * r, p, q, x);
}

/// The residue of `i` modulo the lane count, as the coder computes it.
pub proof fn lemma_lane_mask(i: usize, l: usize)
    requires
        l == 1 || l == 2 || l == 4 || l == 8,
    ensures
        i & ((l - 1) as usize) == i % l,
{
    if l == 1 {
        assert(i & 0 == i % 1) by (bit_vector);
    } else if l == 2 {
        assert(i & 1 == i % 2) by (bit_vector);
    } else if l == 4 {
        assert(i & 3 == i % 4) by (bit_vector);
    } else {
        assert(i & 7 == i % 8) by (bit_vector);
    }
}

/// Two indices less than `l` apart have different residues modulo `l`.
pub proof fn lemma_mod_distinct(a: int, b: int, l: int)
    requires
        l > 0,
        a < b < a + l,
    ensures
        a % l != b % l,
{
    vstd::arithmetic::div_mod::lemma_fundamental_div_mod(a, l);
    vstd::arithmetic::div_mod::lemma_fundamental_div_mod(b, l);
    vstd::arithmetic::div_mod::lemma_mod_bound(a, l);
    vstd::arithmetic::div_mod::lemma_mod_bound(b, l);
    if a % l == b % l {
        let qa = a / l;
        let qb = b / l;
        assert(b - a == l * (qb - qa)) by (nonlinear_arith)
            requires
                a == l * qa + a % l,
                b == l * qb + b % l,
                a % l == b % l,
        ;
        assert(false) by (nonlinear_arith)
            requires
                b - a == l * (qb - qa),
                0 < b - a < l,
                l > 0,
        ;
    }
}

/// Stepping back by `l` keeps the residue modulo `l`.
pub proof fn lemma_mod_back(a: int, l: int)
    requires
        l > 0,
    ensures
        (a - l) % l == a % l,
{
    vstd::arithmetic::div_mod::lemma_fundamental_div_mod(a, l);
    vstd::arithmetic::div_mod::lemma_mod_bound(a, l);
    let q = a / l;
    assert(a - l == (q - 1) * l + a % l) by (nonlinear_arith)
        requires
            a == l * q + a % l,
    ;
    vstd::arithmetic::div_mod::lemma_fundamental_div_mod_converse(a - l, l, q - 1, a % l);
}

/// Every residue below `l` is taken by exactly one index of the window
/// `m - l .. m`; this is that index.
pub open spec fn window_index(m: int, k: int, l: int) -> int {
    m - 1 - ((m - 1 - k) % l)
}

pub proof fn lemma_window_index(m: int, k: int, l: int)
    requires
        l > 0,
        0 <= k < l,
    ensures
        m - l <= window_index(m, k, l) < m,
        window_index(m, k, l) % l == k,
{
    let x = m - 1 - k;
    vstd::arithmetic::div_mod::lemma_fundamental_div_mod(x, l);
    vstd::arithmetic::div_mod::lemma_mod_bound(x, l);
    let q = x / l;
    let j = window_index(m, k, l);
    assert(j == q * l + k) by (nonlinear_arith)
        requires
            x == l * q + x % l,
            j == m - 1 - x % l,
            x == m - 1 - k,
    ;
    vstd::arithmetic::div_mod::lemma_fundamental_div_mod_converse(j, l, q, k);
}

/// Wrapping multiply-then-add is the exact sum taken modulo 2^64.
pub proof fn lemma_wrapping_mul_add(x: int, f: int, r: int, m: int, s: int)
    requires
        0 <= x,
        0 <= f,
        0 <= r < two_pow_64(),
        m == (x * f) % two_pow_64(),
        s == (if m + r > 0xffff_ffff_ffff_ffff {
            m + r - two_pow_64()
        } else {
            m + r
        }),
    ensures
        s == (x * f + r) % two_pow_64(),
{
    let p = two_pow_64();
    vstd::arithmetic::div_mod::lemma_mod_bound(x * f, p);
    vstd::arithmetic::div_mod::lemma_add_mod_noop(x * f, r, p);
    vstd::arithmetic::div_mod::lemma_small_mod(r as nat, p as nat);
    if m + r >= p {
        vstd::arithmetic::div_mod::lemma_fundamental_div_mod_converse(m + r, p, 1, s);
    } else {
        vstd::arithmetic::div_mod::lemma_fundamental_div_mod_converse(m + r, p, 0, s);
    }
}

/// Appending a 16-bit word below a quotient by shifting and or-ing.
pub proof fn lemma_shift_or(q: u64, w: u64)
    requires
        q < 0x1_0000_0000_0000,
        w < 0x1_0000,
    ensures
        (q << 16u64) | w == q * 65536 + w,
{
    assert((q << 16u64) | w == q * 65536 + w) by (bit_vector)
        requires
            q < 0x1_0000_0000_0000u64,
            w < 0x1_0000u64,
    ;
}

} // verus!
