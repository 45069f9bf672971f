use vstd::arithmetic::div_mod::{
    lemma_fundamental_div_mod, lemma_mod_bound, lemma_mod_division_less_than_divisor,
    lemma_small_mod,
};
use vstd::arithmetic::mul::{lemma_mul_is_commutative, lemma_mul_upper_bound};
use vstd::prelude::*;

verus! {

/// Greatest common divisor of two natural numbers, by Euclid's rule.
/// `spec_gcd(a, 0) == a`, so `spec_gcd(0, 0) == 0`.
pub open spec fn spec_gcd(a: nat, b: nat) -> nat
    decreases b,
{
    if b == 0 {
        a
    } else {
        spec_gcd(b, a % b)
    }
}

/// `d` divides `x`.
pub open spec fn divides(d: nat, x: nat) -> bool {
    exists|k: nat| x == #[trigger] (d * k)
}

pub proof fn lemma_gcd_pos(a: nat, b: nat)
    requires
        a != 0 || b != 0,
    ensures
        spec_gcd(a, b) != 0,
    decreases b,
{
    if b != 0 {
        lemma_mod_bound(a as int, b as int);
        lemma_gcd_pos(b, a % b);
    }
}

pub proof fn lemma_divides_le(d: nat, x: nat)
    requires
        divides(d, x),
        x != 0,
    ensures
        d <= x,
        d != 0,
{
    let k = choose|k: nat| x == #[trigger] (d * k);
    if d == 0 {
        assert(x == 0) by (nonlinear_arith)
            requires
                x == d * k,
                d == 0,
        ;
    }
    if k == 0 {
        assert(x == 0) by (nonlinear_arith)
            requires
                x == d * k,
                k == 0,
        ;
    }
    assert(d * 1 <= d * k) by (nonlinear_arith)
        requires
            1 <= k,
            0 <= d,
    ;
}

pub proof fn lemma_divides_mod(d: nat, x: nat)
    requires
        d != 0,
    ensures
        divides(d, x) <==> x % d == 0,
{
    if x % d == 0 {
        lemma_fundamental_div_mod(x as int, d as int);
        assert(x == d * (x / d));
        assert(x == d * ((x / d) as nat));
    }
    if divides(d, x) {
        let k = choose|k: nat| x == #[trigger] (d * k);
        vstd::arithmetic::div_mod::lemma_mod_multiples_basic(k as int, d as int);
        assert((d as int * k as int) % (d as int) == (k as int * d as int) % (d as int))
            by (nonlinear_arith);
    }
}

/// Every common divisor structure: the gcd divides both arguments.
pub proof fn lemma_gcd_divides(a: nat, b: nat)
    ensures
        divides(spec_gcd(a, b), a),
        divides(spec_gcd(a, b), b),
    decreases b,
{
    let g = spec_gcd(a, b);
    if b == 0 {
        assert(a == g * 1) by (nonlinear_arith)
            requires
                g == a,
        ;
        assert(g * 0 == 0) by (nonlinear_arith);
    } else {
        lemma_gcd_divides(b, a % b);
        let k1 = choose|k: nat| b == #[trigger] (g * k);
        let k2 = choose|k: nat| (a % b) == #[trigger] (g * k);
        lemma_fundamental_div_mod(a as int, b as int);
        let q = a as int / b as int;
        lemma_mod_bound(a as int, b as int);
        assert(q >= 0) by {
            vstd::arithmetic::div_mod::lemma_div_pos_is_pos(a as int, b as int);
        }
        assert(a as int == g * (k1 * q + k2) && k1 * q + k2 >= 0) by (nonlinear_arith)
            requires
                a as int == b * q + (a % b),
                b == g * k1,
                a % b == g * k2,
                q >= 0,
        ;
        assert(a == g * ((k1 * q + k2) as nat));
    }
}

/// Bezout coefficients: the gcd is an integer combination of its arguments.
pub proof fn lemma_bezout(a: nat, b: nat) -> (r: (int, int))
    ensures
        spec_gcd(a, b) == r.0 * a + r.1 * b,
    decreases b,
{
    if b == 0 {
        (1, 0)
    } else {
        let (x, y) = lemma_bezout(b, a % b);
        lemma_fundamental_div_mod(a as int, b as int);
        let q = a as int / b as int;
        assert(spec_gcd(a, b) == x * b + y * (a - q * b));
        assert(x * b + y * (a - q * b) == y * a + (x - y * q) * b) by (nonlinear_arith);
        (y, x - y * q)
    }
}

/// A common divisor of both arguments divides the gcd.
pub proof fn lemma_gcd_greatest(c: nat, a: nat, b: nat)
    requires
        divides(c, a),
        divides(c, b),
    ensures
        divides(c, spec_gcd(a, b)),
{
    let g = spec_gcd(a, b);
    let (x, y) = lemma_bezout(a, b);
    let k1 = choose|k: nat| a == #[trigger] (c * k);
    let k2 = choose|k: nat| b == #[trigger] (c * k);
    assert(g as int == c * (x * k1 + y * k2)) by (nonlinear_arith)
        requires
            g as int == x * a + y * b,
            a == c * k1,
            b == c * k2,
    ;
    let m = x * k1 + y * k2;
    if c == 0 {
        assert(g == c * 0) by (nonlinear_arith)
            requires
                g as int == c * m,
                c == 0,
        ;
    } else {
        assert(m >= 0) by (nonlinear_arith)
            requires
                g as int == c * m,
                g >= 0,
                c > 0,
        ;
        assert(g == c * (m as nat));
    }
}

/// Dividing both arguments by their gcd leaves a coprime pair.
pub proof fn lemma_gcd_reduced(a: nat, b: nat)
    requires
        a != 0 || b != 0,
    ensures
        spec_gcd((a / spec_gcd(a, b)) as nat, (b / spec_gcd(a, b)) as nat) == 1,
{
    let g = spec_gcd(a, b);
    lemma_gcd_pos(a, b);
    lemma_gcd_divides(a, b);
    let ka = choose|k: nat| a == #[trigger] (g * k);
    let kb = choose|k: nat| b == #[trigger] (g * k);
    assert(a / g == ka) by {
        vstd::arithmetic::div_mod::lemma_div_multiples_vanish(ka as int, g as int);
        lemma_mul_is_commutative(g as int, ka as int);
    }
    assert(b / g == kb) by {
        vstd::arithmetic::div_mod::lemma_div_multiples_vanish(kb as int, g as int);
        lemma_mul_is_commutative(g as int, kb as int);
    }
    let g2 = spec_gcd(ka, kb);
    assert(ka != 0 || kb != 0) by (nonlinear_arith)
        requires
            a == g * ka,
            b == g * kb,
            a != 0 || b != 0,
    ;
    lemma_gcd_pos(ka, kb);
    lemma_gcd_divides(ka, kb);
    let ma = choose|k: nat| ka == #[trigger] (g2 * k);
    let mb = choose|k: nat| kb == #[trigger] (g2 * k);
    assert(a == (g * g2) * ma && b == (g * g2) * mb) by (nonlinear_arith)
        requires
            a == g * ka,
            b == g * kb,
            ka == g2 * ma,
            kb == g2 * mb,
    ;
    lemma_gcd_greatest(g * g2, a, b);
    lemma_divides_le(g * g2, g);
    assert(g2 <= 1) by (nonlinear_arith)
        requires
            g * g2 <= g,
            g > 0,
            g2 > 0,
    ;
}

/// Euclid's lemma: a number coprime to `n` that divides `n * k` divides `k`.
pub proof fn lemma_coprime_divides(n: nat, d: nat, k: nat)
    requires
        d != 0,
        spec_gcd(n, d) == 1,
        divides(d, n * k),
    ensures
        divides(d, k),
{
    let (x, y) = lemma_bezout(n, d);
    let m = choose|m: nat| n * k == #[trigger] (d * m);
    assert(k as int == d * (x * m + y * k)) by (nonlinear_arith)
        requires
            1 == x * n + y * d,
            n * k == d * m,
    ;
    let w = x * m + y * k;
    assert(w >= 0) by (nonlinear_arith)
        requires
            k as int == d * w,
            k >= 0,
            d > 0,
    ;
    assert(k == d * (w as nat));
}

/// A reduced fraction representation is unique: if two reduced fractions
/// have equal cross products, they are the same pair.
pub proof fn lemma_reduced_unique(n1: nat, d1: nat, n2: nat, d2: nat)
    requires
        d1 != 0,
        d2 != 0,
        spec_gcd(n1, d1) == 1,
        spec_gcd(n2, d2) == 1,
        n1 * d2 == n2 * d1,
    ensures
        n1 == n2,
        d1 == d2,
{
    assert(divides(d1, n1 * d2)) by {
        assert(n1 * d2 == d1 * n2) by (nonlinear_arith)
            requires
                n1 * d2 == n2 * d1,
        ;
    }
    lemma_coprime_divides(n1, d1, d2);
    assert(divides(d2, n2 * d1)) by {
        assert(n2 * d1 == d2 * n1) by (nonlinear_arith)
            requires
                n1 * d2 == n2 * d1,
        ;
    }
    lemma_coprime_divides(n2, d2, d1);
    lemma_divides_le(d1, d2);
    lemma_divides_le(d2, d1);
    assert(n1 == n2) by (nonlinear_arith)
        requires
            n1 * d2 == n2 * d1,
            d1 == d2,
            d1 > 0,
    ;
}

/// Common divisors of `(d - n, d)` and of `(n, d)` coincide, so the gcds agree.
pub proof fn lemma_gcd_sub(n: nat, d: nat)
    requires
        n <= d,
        d != 0,
    ensures
        spec_gcd((d - n) as nat, d) == spec_gcd(n, d),
{
    let m = (d - n) as nat;
    let g1 = spec_gcd(m, d);
    let g2 = spec_gcd(n, d);
    lemma_gcd_divides(m, d);
    lemma_gcd_divides(n, d);
    lemma_gcd_pos(m, d);
    lemma_gcd_pos(n, d);
    assert(divides(g1, n)) by {
        let k1 = choose|k: nat| m == #[trigger] (g1 * k);
        let k2 = choose|k: nat| d == #[trigger] (g1 * k);
        assert(n == g1 * ((k2 - k1) as nat)) by (nonlinear_arith)
            requires
                m == g1 * k1,
                d == g1 * k2,
                n == d - m,
                g1 > 0,
        ;
    }
    lemma_gcd_greatest(g1, n, d);
    assert(divides(g2, m)) by {
        let k1 = choose|k: nat| n == #[trigger] (g2 * k);
        let k2 = choose|k: nat| d == #[trigger] (g2 * k);
        assert(m == g2 * ((k2 - k1) as nat)) by (nonlinear_arith)
            requires
                n == g2 * k1,
                d == g2 * k2,
                m == d - n,
                g2 > 0,
        ;
    }
    lemma_gcd_greatest(g2, m, d);
    lemma_divides_le(g1, g2);
    lemma_divides_le(g2, g1);
}

/// `spec_gcd(0, 1) == 1`: the zero grade is reduced.
pub proof fn lemma_gcd_zero_one()
    ensures
        spec_gcd(0, 1) == 1,
{
    lemma_small_mod(0, 1);
    assert(spec_gcd(0, 1) == spec_gcd(1, 0));
}

/// Full-width product of two 64-bit values, free of overflow.
pub fn mul_u64_to_u128(a: u64, b: u64) -> (r: u128)
    ensures
        r == (a as nat) * (b as nat),
{
    proof {
        lemma_mul_upper_bound(a as int, u64::MAX as int, b as int, u64::MAX as int);
    }
    (a as u128) * (b as u128)
}

/// Full-width product of two 64-bit signed values, free of overflow.
pub fn mul_i64_to_i128(a: i64, b: i64) -> (r: i128)
    ensures
        r == (a as int) * (b as int),
{
    proof {
        assert((a as int) * (b as int) <= i128::MAX && (a as int) * (b as int) >= i128::MIN)
            by (nonlinear_arith)
            requires
                i64::MIN <= a <= i64::MAX,
                i64::MIN <= b <= i64::MAX,
        ;
    }
    (a as i128) * (b as i128)
}

/// Euclid's algorithm on 128-bit unsigned integers.
pub fn gcd_u128(a: u128, b: u128) -> (r: u128)
    ensures
        r == spec_gcd(a as nat, b as nat),
    decreases b,
{
    if b == 0 {
        a
    } else {
        proof {
            lemma_mod_division_less_than_divisor(a as int, b as int);
            lemma_mod_bound(a as int, b as int);
        }
        gcd_u128(b, a % b)
    }
}

/// Euclid's algorithm on 64-bit unsigned integers.
pub fn gcd_u64(a: u64, b: u64) -> (r: u64)
    ensures
        r == spec_gcd(a as nat, b as nat),
    decreases b,
{
    if b == 0 {
        a
    } else {
        proof {
            lemma_mod_bound(a as int, b as int);
        }
        gcd_u64(b, a % b)
    }
}

/// Exact division: dividing a multiple returns the cofactor.
pub proof fn lemma_div_exact(x: nat, g: nat, k: nat)
    requires
        g != 0,
        x == g * k,
    ensures
        x / g == k,
        x % g == 0,
{
    vstd::arithmetic::div_mod::lemma_div_multiples_vanish(k as int, g as int);
    lemma_mul_is_commutative(g as int, k as int);
    lemma_divides_mod(g, x);
    assert(divides(g, x));
}

} // verus!
