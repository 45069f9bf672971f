use crate::prufer_group::PruferGroup;
use crate::CoxeterError;
use vstd::prelude::*;

verus! {

/// A three-way sign classification of a real value.
#[derive(Clone, Copy, Debug, PartialEq, Eq, Structural)]
pub enum Sign {
    Zero,
    Positive,
    Negative,
}

/// Fixed-point scale: values carry forty fractional bits.
pub const FP_ONE: i128 = 0x100_0000_0000;

/// Lower and upper fixed-point bounds of two pi.
pub const TWO_PI_LO: i128 = 6908521895516;

pub const TWO_PI_HI: i128 = 6908521895517;

/// Slack added to absorb directed-rounding losses across the evaluation.
pub const ROUND_SLACK: i128 = 4096;

/// A fixed-point interval enclosing `cos(2 * pi * n / d)`, by symmetry
/// reduction to the first quadrant and an alternating series with directed
/// rounding. The interval is a numeric estimate used only as a sign
/// heuristic; exactness is never claimed of it.
fn cos_interval(n: u64, d: u64) -> (r: Option<(i128, i128)>)
    requires
        0 < d <= 0xFFFF_FFFFu64,
        n < d,
    ensures
        r is Some <==> spec_cos_interval(n as nat, d as nat) is Some,
        r is Some ==> ({
            let (a, b) = r->0;
            let (x, y) = spec_cos_interval(n as nat, d as nat)->0;
            a == x && b == y
        }),
{
    let ghost sv = spec_cos_interval(n as nat, d as nat);
    let ghost core = spec_cos_core(n as nat, d as nat);
    // reduce to [0, 1/2]: cos is even around zero
    let n1: u64 = if 2 * n > d {
        d - n
    } else {
        n
    };
    // reduce to [0, 1/4]: flip around a quarter turn when needed
    let flip: bool = 4 * n1 > d;
    let (m, dd): (u64, u64) = if flip {
        (if 2 * n1 <= d { d - 2 * n1 } else { 0 }, 2 * d)
    } else {
        (2 * n1, 2 * d)
    };
    proof {
        assert(core == (flip, m as nat, dd as nat));
    }
    // theta in [0, pi/2], as a fixed-point interval
    let tlo: i128 = (TWO_PI_LO * (m as i128)) / (dd as i128);
    let thi: i128 = (TWO_PI_HI * (m as i128)) / (dd as i128) + 1;
    proof {
        assert(tlo as int == (TWO_PI_LO * (m as nat)) / (dd as nat as int));
        assert(thi as int == (TWO_PI_HI * (m as nat)) / (dd as nat as int) + 1);
    }
    // squared bounds; theta < 2 so the products stay far from overflow
    if !(0 <= tlo && tlo <= thi && thi < 2 * FP_ONE) {
        return None;
    }
    proof {
        assert(tlo * tlo <= thi * thi && thi * thi < 4 * FP_ONE * FP_ONE) by (nonlinear_arith)
            requires
                0 <= tlo <= thi < 2 * FP_ONE,
        ;
    }
    let sq_lo: i128 = (tlo * tlo) / FP_ONE;
    let sq_hi: i128 = (thi * thi) / FP_ONE + 1;
    // alternating series: running term interval and sum interval
    let mut term_lo: i128 = FP_ONE;
    let mut term_hi: i128 = FP_ONE;
    let mut sum_lo: i128 = FP_ONE;
    let mut sum_hi: i128 = FP_ONE;
    proof {
        assert(sv == (if !(0 <= tlo && tlo <= thi && thi < 2 * FP_ONE) {
            Option::<(int, int)>::None
        } else {
            match spec_cos_series(
                sq_lo as int,
                sq_hi as int,
                FP_ONE as int,
                FP_ONE as int,
                FP_ONE as int,
                FP_ONE as int,
                0,
            ) {
                Option::None => Option::<(int, int)>::None,
                Option::Some((lo, hi)) => {
                    if flip {
                        if lo == i128::MIN || hi == i128::MIN {
                            Option::<(int, int)>::None
                        } else {
                            Option::Some((-hi, -lo))
                        }
                    } else {
                        Option::Some((lo, hi))
                    }
                },
            }
        }));
    }
    let mut j: u32 = 0;
    while j < 24
        invariant
            0 <= sq_lo,
            sq_lo <= sq_hi,
            sq_hi <= 4 * FP_ONE + 1,
            0 <= term_lo,
            term_lo <= term_hi,
            j <= 24,
            sv == (if !(0 <= tlo && tlo <= thi && thi < 2 * FP_ONE) {
                Option::<(int, int)>::None
            } else {
                match spec_cos_series(
                    sq_lo as int,
                    sq_hi as int,
                    term_lo as int,
                    term_hi as int,
                    sum_lo as int,
                    sum_hi as int,
                    j as nat,
                ) {
                    Option::None => Option::<(int, int)>::None,
                    Option::Some((lo, hi)) => {
                        if flip {
                            if lo == i128::MIN || hi == i128::MIN {
                                Option::<(int, int)>::None
                            } else {
                                Option::Some((-hi, -lo))
                            }
                        } else {
                            Option::Some((lo, hi))
                        }
                    },
                }
            }),
            0 <= tlo && tlo <= thi && thi < 2 * FP_ONE,
            sv == spec_cos_interval(n as nat, d as nat),
        decreases 24 - j,
    {
        proof {
            assert((2 * (j as int) + 1) * (2 * (j as int) + 2) >= 2 && (2 * (j as int) + 1) * (2
                * (j as int) + 2) <= 5000) by (nonlinear_arith)
                requires
                    0 <= j < 24,
            ;
        }
        let div: i128 = (2 * (j as i128) + 1) * (2 * (j as i128) + 2);
        proof {
            assert(term_lo * sq_lo >= 0 && term_hi * sq_hi >= 0) by (nonlinear_arith)
                requires
                    term_lo >= 0,
                    sq_lo >= 0,
                    term_hi >= 0,
                    sq_hi >= 0,
            ;
        }
        let next_lo: i128 = match term_lo.checked_mul(sq_lo) {
            Some(p) => (p / FP_ONE) / div,
            None => {
                return None;
            },
        };
        let next_hi: i128 = match term_hi.checked_mul(sq_hi) {
            Some(p) => (p / FP_ONE) / div + 1,
            None => {
                return None;
            },
        };
        if !(0 <= next_lo && next_lo <= next_hi) {
            return None;
        }
        if j % 2 == 0 {
            // subtract the term: worst case subtracts the high end
            sum_lo = match sum_lo.checked_sub(next_hi) {
                Some(v) => v,
                None => {
                    return None;
                },
            };
            sum_hi = match sum_hi.checked_sub(next_lo) {
                Some(v) => v,
                None => {
                    return None;
                },
            };
        } else {
            sum_lo = match sum_lo.checked_add(next_lo) {
                Some(v) => v,
                None => {
                    return None;
                },
            };
            sum_hi = match sum_hi.checked_add(next_hi) {
                Some(v) => v,
                None => {
                    return None;
                },
            };
        }
        term_lo = next_lo;
        term_hi = next_hi;
        j += 1;
    }
    let lo: i128 = match sum_lo.checked_sub(ROUND_SLACK) {
        Some(v) => v,
        None => {
            return None;
        },
    };
    let hi: i128 = match sum_hi.checked_add(ROUND_SLACK) {
        Some(v) => v,
        None => {
            return None;
        },
    };
    if flip {
        if lo == i128::MIN || hi == i128::MIN {
            None
        } else {
            Some((-hi, -lo))
        }
    } else {
        Some((lo, hi))
    }
}

/// Estimates the sign of the real part of a cyclotomic number, that is of
/// the sum of `coefficient * cos(2 * pi * numer / denom)` over its terms,
/// by fixed-point interval arithmetic. Answers only when the enclosing
/// interval excludes zero; otherwise the estimate is declared ambiguous.
/// A numeric heuristic: callers decide exact zeroness separately.
pub fn sign_estimate(terms: &Vec<(i64, PruferGroup)>) -> (r: Result<Sign, CoxeterError>)
    requires
        crate::cyclotomic::stored_ok(terms@),
    ensures
        r == spec_sign_est(crate::cyclotomic::tv(terms@)),
{
    let ghost tvv = crate::cyclotomic::tv(terms@);
    let mut sum_lo: i128 = 0;
    let mut sum_hi: i128 = 0;
    let mut k: usize = 0;
    proof {
        assert(tvv.take(0) =~= Seq::<(int, nat, nat)>::empty());
    }
    while k < terms.len()
        invariant
            crate::cyclotomic::stored_ok(terms@),
            tvv == crate::cyclotomic::tv(terms@),
            k <= terms.len(),
            spec_sign_acc(tvv.take(k as int)) == Result::<(int, int), CoxeterError>::Ok(
                (sum_lo as int, sum_hi as int),
            ),
        decreases terms.len() - k,
    {
        let (c, g) = terms[k];
        proof {
            assert(tvv[k as int] == (c as int, g.numer as nat, g.denom as nat));
            assert(tvv.take(k + 1).drop_last() =~= tvv.take(k as int));
            assert(tvv.take(k + 1).last() == tvv[k as int]);
        }
        let iv: (i128, i128) = match cos_interval(g.numer, g.denom) {
            Some(iv) => iv,
            None => {
                proof {
                    assert(spec_sign_acc(tvv.take(k + 1)) == Result::<(int, int), CoxeterError>::Err(
                        CoxeterError::AmbiguousSign,
                    ));
                    lemma_sign_acc_err(tvv, k + 1);
                }
                return Err(CoxeterError::AmbiguousSign);
            },
        };
        let ghost ivs = spec_cos_interval(g.numer as nat, g.denom as nat)->0;
        proof {
            assert((iv.0 as int, iv.1 as int) == ivs);
        }
        let (add_lo, add_hi): (i128, i128) = if c >= 0 {
            (
                match (c as i128).checked_mul(iv.0) {
                    Some(v) => v,
                    None => {
                        proof {
                            lemma_sign_acc_err(tvv, k + 1);
                        }
                        return Err(CoxeterError::Overflow);
                    },
                },
                match (c as i128).checked_mul(iv.1) {
                    Some(v) => v,
                    None => {
                        proof {
                            lemma_sign_acc_err(tvv, k + 1);
                        }
                        return Err(CoxeterError::Overflow);
                    },
                },
            )
        } else {
            (
                match (c as i128).checked_mul(iv.1) {
                    Some(v) => v,
                    None => {
                        proof {
                            lemma_sign_acc_err(tvv, k + 1);
                        }
                        return Err(CoxeterError::Overflow);
                    },
                },
                match (c as i128).checked_mul(iv.0) {
                    Some(v) => v,
                    None => {
                        proof {
                            lemma_sign_acc_err(tvv, k + 1);
                        }
                        return Err(CoxeterError::Overflow);
                    },
                },
            )
        };
        sum_lo = match sum_lo.checked_add(add_lo) {
            Some(v) => v,
            None => {
                proof {
                    lemma_sign_acc_err(tvv, k + 1);
                }
                return Err(CoxeterError::Overflow);
            },
        };
        sum_hi = match sum_hi.checked_add(add_hi) {
            Some(v) => v,
            None => {
                proof {
                    lemma_sign_acc_err(tvv, k + 1);
                }
                return Err(CoxeterError::Overflow);
            },
        };
        k += 1;
    }
    proof {
        assert(tvv.take(terms@.len() as int) =~= tvv);
    }
    if sum_lo > 0 {
        Ok(Sign::Positive)
    } else if sum_hi < 0 {
        Ok(Sign::Negative)
    } else {
        Err(CoxeterError::AmbiguousSign)
    }
}

/// An integer lies in the 128-bit signed machine range.
pub open spec fn in_i128(x: int) -> bool {
    i128::MIN <= x <= i128::MAX
}

/// The quadrant reduction: whether the cosine flips sign, and the reduced
/// fraction of the angle within the first quadrant.
pub open spec fn spec_cos_core(n: nat, d: nat) -> (bool, nat, nat) {
    let n1: nat = if 2 * n > d {
        (d - n) as nat
    } else {
        n
    };
    if 4 * n1 > d {
        (
            true,
            if 2 * n1 <= d {
                (d - 2 * n1) as nat
            } else {
                0nat
            },
            2 * d,
        )
    } else {
        (false, 2 * n1, 2 * d)
    }
}

/// The alternating-series tail of the cosine estimate, from step `j` with
/// the given running term and sum intervals; mirrors the machine-range
/// checks of the evaluation exactly.
pub open spec fn spec_cos_series(
    sq_lo: int,
    sq_hi: int,
    term_lo: int,
    term_hi: int,
    sum_lo: int,
    sum_hi: int,
    j: nat,
) -> Option<(int, int)>
    decreases 24 - j,
{
    if j >= 24 {
        if !in_i128(sum_lo - ROUND_SLACK) || !in_i128(sum_hi + ROUND_SLACK) {
            Option::None
        } else {
            Option::Some((sum_lo - ROUND_SLACK, sum_hi + ROUND_SLACK))
        }
    } else {
        let div = (2 * j + 1) * (2 * j + 2);
        if !in_i128(term_lo * sq_lo) || !in_i128(term_hi * sq_hi) {
            Option::None
        } else {
            let next_lo = ((term_lo * sq_lo) / (FP_ONE as int)) / (div as int);
            let next_hi = ((term_hi * sq_hi) / (FP_ONE as int)) / (div as int) + 1;
            if !(0 <= next_lo && next_lo <= next_hi) {
                Option::None
            } else {
                let (s_lo, s_hi) = if j % 2 == 0 {
                    (sum_lo - next_hi, sum_hi - next_lo)
                } else {
                    (sum_lo + next_lo, sum_hi + next_hi)
                };
                if !in_i128(s_lo) || !in_i128(s_hi) {
                    Option::None
                } else {
                    spec_cos_series(sq_lo, sq_hi, next_lo, next_hi, s_lo, s_hi, j + 1)
                }
            }
        }
    }
}

/// The fixed-point interval the cosine estimate computes for the angle
/// `2 * pi * n / d`, including every machine-range failure.
pub open spec fn spec_cos_interval(n: nat, d: nat) -> Option<(int, int)>
    recommends
        0 < d,
        n < d,
{
    let (flip, m, dd) = spec_cos_core(n, d);
    let tlo = (TWO_PI_LO * m) / (dd as int);
    let thi = (TWO_PI_HI * m) / (dd as int) + 1;
    if !(0 <= tlo && tlo <= thi && thi < 2 * FP_ONE) {
        Option::None
    } else {
        let sq_lo = (tlo * tlo) / (FP_ONE as int);
        let sq_hi = (thi * thi) / (FP_ONE as int) + 1;
        match spec_cos_series(
            sq_lo,
            sq_hi,
            FP_ONE as int,
            FP_ONE as int,
            FP_ONE as int,
            FP_ONE as int,
            0,
        ) {
            Option::None => Option::None,
            Option::Some((lo, hi)) => {
                if flip {
                    if lo == i128::MIN || hi == i128::MIN {
                        Option::None
                    } else {
                        Option::Some((-hi, -lo))
                    }
                } else {
                    Option::Some((lo, hi))
                }
            },
        }
    }
}

/// The running interval of the sign estimate over the terms, with every
/// failure the estimate can report.
pub open spec fn spec_sign_acc(terms: Seq<(int, nat, nat)>) -> Result<(int, int), CoxeterError>
    decreases terms.len(),
{
    if terms.len() == 0 {
        Result::Ok((0, 0))
    } else {
        match spec_sign_acc(terms.drop_last()) {
            Result::Err(e) => Result::Err(e),
            Result::Ok((lo, hi)) => {
                let t = terms.last();
                match spec_cos_interval(t.1, t.2) {
                    Option::None => Result::Err(CoxeterError::AmbiguousSign),
                    Option::Some((ilo, ihi)) => {
                        let (add_lo, add_hi) = if t.0 >= 0 {
                            (t.0 * ilo, t.0 * ihi)
                        } else {
                            (t.0 * ihi, t.0 * ilo)
                        };
                        if !in_i128(add_lo) || !in_i128(add_hi) {
                            Result::Err(CoxeterError::Overflow)
                        } else if !in_i128(lo + add_lo) || !in_i128(hi + add_hi) {
                            Result::Err(CoxeterError::Overflow)
                        } else {
                            Result::Ok((lo + add_lo, hi + add_hi))
                        }
                    },
                }
            },
        }
    }
}

/// What the sign estimate returns on a term list: a function of the list
/// alone, every failure included. `Ok` is always a strict sign.
pub open spec fn spec_sign_est(terms: Seq<(int, nat, nat)>) -> Result<Sign, CoxeterError> {
    match spec_sign_acc(terms) {
        Result::Err(e) => Result::Err(e),
        Result::Ok((lo, hi)) => {
            if lo > 0 {
                Result::Ok(Sign::Positive)
            } else if hi < 0 {
                Result::Ok(Sign::Negative)
            } else {
                Result::Err(CoxeterError::AmbiguousSign)
            }
        },
    }
}

/// The sign estimate never answers zero: a definite answer is strict.
pub proof fn lemma_sign_est_strict(terms: Seq<(int, nat, nat)>)
    ensures
        spec_sign_est(terms) != Result::<Sign, CoxeterError>::Ok(Sign::Zero),
{
}

/// The accumulation fails only as an ambiguity or a machine overflow.
pub proof fn lemma_sign_acc_kinds(terms: Seq<(int, nat, nat)>)
    ensures
        spec_sign_acc(terms) is Err ==> spec_sign_acc(terms)->Err_0 == CoxeterError::AmbiguousSign
            || spec_sign_acc(terms)->Err_0 == CoxeterError::Overflow,
    decreases terms.len(),
{
    if terms.len() > 0 {
        lemma_sign_acc_kinds(terms.drop_last());
    }
}

/// The estimate fails only as an ambiguity or a machine overflow.
pub proof fn lemma_sign_est_kinds(terms: Seq<(int, nat, nat)>)
    ensures
        spec_sign_est(terms) is Err ==> spec_sign_est(terms)->Err_0 == CoxeterError::AmbiguousSign
            || spec_sign_est(terms)->Err_0 == CoxeterError::Overflow,
{
    lemma_sign_acc_kinds(terms);
}

/// A failing prefix of the accumulation decides the whole accumulation.
pub proof fn lemma_sign_acc_err(terms: Seq<(int, nat, nat)>, k: int)
    requires
        0 <= k <= terms.len(),
        spec_sign_acc(terms.take(k)) is Err,
    ensures
        spec_sign_acc(terms) == spec_sign_acc(terms.take(k)),
    decreases terms.len() - k,
{
    if k < terms.len() {
        assert(terms.take(k + 1).drop_last() =~= terms.take(k));
        lemma_sign_acc_err(terms, k + 1);
    } else {
        assert(terms.take(terms.len() as int) =~= terms);
    }
}

} // verus!
