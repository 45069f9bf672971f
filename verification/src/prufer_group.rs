use crate::arith::{
    gcd_u128, gcd_u64, lemma_div_exact, lemma_gcd_divides, lemma_gcd_pos, lemma_gcd_sub,
    lemma_gcd_reduced, lemma_gcd_zero_one, mul_u64_to_u128, spec_gcd,
};
use crate::CoxeterError;
use vstd::arithmetic::div_mod::{lemma_fundamental_div_mod, lemma_mod_bound, lemma_small_mod};
use vstd::prelude::*;

verus! {

/// Largest denominator a grade may carry; keeps all cross products inside
/// 128-bit arithmetic.
pub const GRADE_DENOM_MAX: u64 = 0xFFFF_FFFF;

/// An element of the Prüfer group Q/Z: a reduced fraction in [0, 1),
/// the exponent of a root of unity taken modulo 1.
///
/// Invariant: `0 <= numer < denom`, `gcd(numer, denom) == 1`, and the
/// denominator stays within `GRADE_DENOM_MAX`. Zero is `(0, 1)`.
#[derive(Clone, Copy, Debug, PartialEq, Eq, Structural)]
pub struct PruferGroup {
    pub numer: u64,
    pub denom: u64,
}

impl View for PruferGroup {
    type V = (nat, nat);

    open spec fn view(&self) -> (nat, nat) {
        (self.numer as nat, self.denom as nat)
    }
}

/// The pair is a reduced fraction in [0, 1).
pub open spec fn grade_ok(g: (nat, nat)) -> bool {
    &&& 0 < g.1
    &&& g.0 < g.1
    &&& spec_gcd(g.0, g.1) == 1
}

/// A reduced fraction in [0, 1) whose denominator the representation can hold.
pub open spec fn grade_wf(g: (nat, nat)) -> bool {
    grade_ok(g) && g.1 <= GRADE_DENOM_MAX
}

/// The value order on grades is transitive.
pub proof fn lemma_grade_trans(a: (nat, nat), b: (nat, nat), c: (nat, nat))
    requires
        grade_ok(a),
        grade_ok(b),
        grade_ok(c),
        grade_lt(a, b),
        grade_lt(b, c),
    ensures
        grade_lt(a, c),
{
    assert(a.0 * c.1 < c.0 * a.1) by (nonlinear_arith)
        requires
            a.0 * b.1 < b.0 * a.1,
            b.0 * c.1 < c.0 * b.1,
            a.1 > 0,
            b.1 > 0,
            c.1 > 0,
    ;
}

/// Grades are totally ordered by value: two reduced fractions that are not
/// strictly ordered either way are the same pair.
pub proof fn lemma_grade_total(a: (nat, nat), b: (nat, nat))
    requires
        grade_ok(a),
        grade_ok(b),
        !grade_lt(a, b),
        !grade_lt(b, a),
    ensures
        a == b,
{
    crate::arith::lemma_reduced_unique(a.0, a.1, b.0, b.1);
}

/// Reduce a fraction `n / d` (with `n < d`) to lowest terms.
pub open spec fn spec_reduce(n: nat, d: nat) -> (nat, nat)
    recommends
        d != 0,
{
    let g = spec_gcd(n, d);
    ((n / g) as nat, (d / g) as nat)
}

/// Addition modulo 1 on fractions, in lowest terms.
pub open spec fn spec_grade_add(a: (nat, nat), b: (nat, nat)) -> (nat, nat)
    recommends
        a.1 != 0,
        b.1 != 0,
{
    let d = a.1 * b.1;
    spec_reduce((a.0 * b.1 + b.0 * a.1) % (d as int) as nat, d)
}

/// Negation modulo 1 on a reduced fraction.
pub open spec fn spec_grade_neg(a: (nat, nat)) -> (nat, nat) {
    if a.0 == 0 {
        (0, 1)
    } else {
        ((a.1 - a.0) as nat, a.1)
    }
}

/// Strict order on fractions by value: `a.0/a.1 < b.0/b.1`.
pub open spec fn grade_lt(a: (nat, nat), b: (nat, nat)) -> bool {
    a.0 * b.1 < b.0 * a.1
}

/// Reducing a fraction with positive denominator yields a reduced fraction
/// with the same value.
pub proof fn lemma_reduce_props(n: nat, d: nat)
    requires
        n < d,
    ensures
        ({
            let r = spec_reduce(n, d);
            &&& 0 < r.1 <= d
            &&& r.0 < r.1
            &&& spec_gcd(r.0, r.1) == 1
            &&& r.0 * d == n * r.1
        }),
{
    let g = spec_gcd(n, d);
    lemma_gcd_pos(n, d);
    lemma_gcd_divides(n, d);
    let kn = choose|k: nat| n == #[trigger] (g * k);
    let kd = choose|k: nat| d == #[trigger] (g * k);
    lemma_div_exact(n, g, kn);
    lemma_div_exact(d, g, kd);
    lemma_gcd_reduced(n, d);
    assert(kd > 0 && kd <= d) by (nonlinear_arith)
        requires
            d == g * kd,
            d > 0,
            g > 0,
    ;
    assert(kn < kd) by (nonlinear_arith)
        requires
            n == g * kn,
            d == g * kd,
            n < d,
            g > 0,
    ;
    assert(kn * d == n * kd) by (nonlinear_arith)
        requires
            n == g * kn,
            d == g * kd,
    ;
}

impl PruferGroup {
    /// The fraction is in lowest terms and lies in [0, 1).
    pub open spec fn wf(self) -> bool {
        grade_wf(self@)
    }

    /// Builds the grade `numer / denom`, reduced modulo 1 to lowest terms.
    pub fn new(numer: u64, denom: u64) -> (r: Self)
        requires
            denom != 0,
            denom <= GRADE_DENOM_MAX,
        ensures
            r.wf(),
            r@ == spec_reduce((numer % denom) as nat, denom as nat),
    {
        let n = numer % denom;
        proof {
            lemma_mod_bound(numer as int, denom as int);
        }
        let g = gcd_u64(n, denom);
        proof {
            lemma_reduce_props(n as nat, denom as nat);
            lemma_gcd_pos(n as nat, denom as nat);
            lemma_gcd_divides(n as nat, denom as nat);
            let kn = choose|k: nat| n as nat == #[trigger] ((g as nat) * k);
            let kd = choose|k: nat| denom as nat == #[trigger] ((g as nat) * k);
            lemma_div_exact(n as nat, g as nat, kn);
            lemma_div_exact(denom as nat, g as nat, kd);
        }
        Self { numer: n / g, denom: denom / g }
    }

    pub fn numer(&self) -> (r: u64)
        ensures
            r == self.numer,
    {
        self.numer
    }

    pub fn denom(&self) -> (r: u64)
        ensures
            r == self.denom,
    {
        self.denom
    }

    /// The zero grade `(0, 1)`.
    pub fn zero() -> (r: Self)
        ensures
            r.wf(),
            r@ == (0nat, 1nat),
    {
        proof {
            lemma_gcd_zero_one();
        }
        Self { numer: 0, denom: 1 }
    }

    pub fn is_zero(&self) -> (r: bool)
        ensures
            r == (self.numer == 0),
    {
        self.numer == 0
    }

    /// Addition modulo 1; fails only when the reduced denominator would
    /// exceed `GRADE_DENOM_MAX`.
    pub fn add(self, rhs: Self) -> (r: Result<Self, CoxeterError>)
        requires
            self.wf(),
            rhs.wf(),
        ensures
            r is Err ==> r->Err_0 == CoxeterError::Overflow,
            r is Ok <==> spec_grade_add(self@, rhs@).1 <= GRADE_DENOM_MAX,
            r is Ok ==> r->Ok_0.wf() && r->Ok_0@ == spec_grade_add(self@, rhs@),
    {
        let dd: u128 = mul_u64_to_u128(self.denom, rhs.denom);
        let p1: u128 = mul_u64_to_u128(self.numer, rhs.denom);
        let p2: u128 = mul_u64_to_u128(rhs.numer, self.denom);
        proof {
            assert(dd > 0 && p1 + p2 < dd + dd && dd + dd <= u128::MAX) by (nonlinear_arith)
                requires
                    dd == (self.denom as nat) * (rhs.denom as nat),
                    p1 == (self.numer as nat) * (rhs.denom as nat),
                    p2 == (rhs.numer as nat) * (self.denom as nat),
                    0 < self.denom <= GRADE_DENOM_MAX,
                    0 < rhs.denom <= GRADE_DENOM_MAX,
                    self.numer < self.denom,
                    rhs.numer < rhs.denom,
            ;
        }
        let nn: u128 = p1 + p2;
        let nm: u128 = nn % dd;
        proof {
            lemma_mod_bound(nn as int, dd as int);
        }
        let g = gcd_u128(nm, dd);
        proof {
            lemma_reduce_props(nm as nat, dd as nat);
            lemma_gcd_pos(nm as nat, dd as nat);
            lemma_gcd_divides(nm as nat, dd as nat);
            let kn = choose|k: nat| nm as nat == #[trigger] ((g as nat) * k);
            let kd = choose|k: nat| dd as nat == #[trigger] ((g as nat) * k);
            lemma_div_exact(nm as nat, g as nat, kn);
            lemma_div_exact(dd as nat, g as nat, kd);
        }
        let rn = nm / g;
        let rd = dd / g;
        if rd <= GRADE_DENOM_MAX as u128 {
            Ok(Self { numer: rn as u64, denom: rd as u64 })
        } else {
            Err(CoxeterError::Overflow)
        }
    }

    /// Negation modulo 1; total and exact.
    pub fn neg(self) -> (r: Self)
        requires
            self.wf(),
        ensures
            r.wf(),
            r@ == spec_grade_neg(self@),
    {
        if self.numer == 0 {
            proof {
                lemma_gcd_zero_one();
            }
            Self { numer: 0, denom: 1 }
        } else {
            proof {
                lemma_gcd_sub(self.numer as nat, self.denom as nat);
            }
            Self { numer: self.denom - self.numer, denom: self.denom }
        }
    }

    /// Strict value order; exact.
    pub fn lt(&self, rhs: &Self) -> (r: bool)
        requires
            self.wf(),
            rhs.wf(),
        ensures
            r == grade_lt(self@, rhs@),
    {
        mul_u64_to_u128(self.numer, rhs.denom) < mul_u64_to_u128(rhs.numer, self.denom)
    }
}

} // verus!
