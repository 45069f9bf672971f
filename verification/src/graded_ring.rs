use crate::cyclotomic::{
    cmul, cneg, cyc_wf, lemma_cmul_wf, lemma_merge_wf, merge, merge_fits, one_terms, stored_ok,
    tv, Cyclotomic,
};
use crate::graded_algebra::GradedAlgebra;
use crate::prufer_group::PruferGroup;
use crate::CoxeterError;
use vstd::prelude::*;

verus! {

/// A univariate polynomial over the cyclotomic ring: a formal sum of
/// cyclotomic coefficients graded by natural exponents, stored as a list
/// sorted strictly by exponent whose coefficients are structurally nonzero.
pub type GradedRing = GradedAlgebra<Cyclotomic, u64>;

/// The mathematical reading of a stored polynomial: coefficient views
/// paired with exponents.
pub open spec fn pv(s: Seq<(Cyclotomic, u64)>) -> Seq<(Seq<(int, nat, nat)>, nat)> {
    s.map_values(|t: (Cyclotomic, u64)| (t.0@, t.1 as nat))
}

/// Exponents strictly increase, and every coefficient is a canonical,
/// structurally nonzero cyclotomic number.
pub open spec fn poly_wf_v(s: Seq<(Seq<(int, nat, nat)>, nat)>) -> bool {
    &&& forall|i: int|
        0 <= i < s.len() ==> (#[trigger] s[i]).0.len() > 0 && cyc_wf(s[i].0)
    &&& forall|i: int| 0 <= i && i + 1 < s.len() ==> (#[trigger] s[i]).1 < s[i + 1].1
}

/// Every coefficient is canonical (no order demanded).
pub open spec fn poly_coeffs_ok(s: Seq<(Seq<(int, nat, nat)>, nat)>) -> bool {
    forall|i: int| 0 <= i < s.len() ==> cyc_wf((#[trigger] s[i]).0)
}

/// Machine-side bounds of the stored coefficients.
pub open spec fn poly_stored_ok(s: Seq<(Cyclotomic, u64)>) -> bool {
    forall|i: int| 0 <= i < s.len() ==> stored_ok((#[trigger] s[i]).0.terms@)
}

/// Canonical sum of two polynomials: merge by exponent, adding the
/// cyclotomic coefficients of equal exponents and dropping coefficients
/// that cancel structurally.
pub open spec fn pmerge(
    a: Seq<(Seq<(int, nat, nat)>, nat)>,
    b: Seq<(Seq<(int, nat, nat)>, nat)>,
) -> Seq<(Seq<(int, nat, nat)>, nat)>
    decreases a.len() + b.len(),
{
    if a.len() == 0 {
        b
    } else if b.len() == 0 {
        a
    } else if a[0].1 < b[0].1 {
        seq![a[0]] + pmerge(a.drop_first(), b)
    } else if b[0].1 < a[0].1 {
        seq![b[0]] + pmerge(a, b.drop_first())
    } else {
        let c = merge(a[0].0, b[0].0);
        if c.len() == 0 {
            pmerge(a.drop_first(), b.drop_first())
        } else {
            seq![(c, a[0].1)] + pmerge(a.drop_first(), b.drop_first())
        }
    }
}

/// Termwise negation of a polynomial.
pub open spec fn ppneg(s: Seq<(Seq<(int, nat, nat)>, nat)>) -> Seq<(Seq<(int, nat, nat)>, nat)> {
    s.map_values(|t: (Seq<(int, nat, nat)>, nat)| (cneg(t.0), t.1))
}

/// The product of one polynomial term with a polynomial.
pub open spec fn pterm_mul(
    t: (Seq<(int, nat, nat)>, nat),
    b: Seq<(Seq<(int, nat, nat)>, nat)>,
) -> Seq<(Seq<(int, nat, nat)>, nat)>
    decreases b.len(),
{
    if b.len() == 0 {
        Seq::empty()
    } else {
        let c = cmul(t.0, b[0].0);
        let h: Seq<(Seq<(int, nat, nat)>, nat)> = if c.len() == 0 {
            Seq::empty()
        } else {
            seq![(c, t.1 + b[0].1)]
        };
        pmerge(h, pterm_mul(t, b.drop_first()))
    }
}

/// Canonical product of two polynomials.
pub open spec fn pmul(
    a: Seq<(Seq<(int, nat, nat)>, nat)>,
    b: Seq<(Seq<(int, nat, nat)>, nat)>,
) -> Seq<(Seq<(int, nat, nat)>, nat)>
    decreases a.len(),
{
    if a.len() == 0 {
        Seq::empty()
    } else {
        pmerge(pterm_mul(a[0], b), pmul(a.drop_first(), b))
    }
}

/// A coefficient multiplied by the `e`-th power of the argument, by
/// repeated canonical multiplication.
pub open spec fn term_eval(c: Seq<(int, nat, nat)>, x: Seq<(int, nat, nat)>, e: nat) -> Seq<
    (int, nat, nat),
>
    decreases e,
{
    if e == 0 {
        c
    } else {
        cmul(term_eval(c, x, (e - 1) as nat), x)
    }
}

/// The value of a polynomial at a cyclotomic argument: the canonical sum
/// of every coefficient times the matching power of the argument.
pub open spec fn peval(p: Seq<(Seq<(int, nat, nat)>, nat)>, x: Seq<(int, nat, nat)>) -> Seq<
    (int, nat, nat),
>
    decreases p.len(),
{
    if p.len() == 0 {
        Seq::empty()
    } else {
        merge(peval(p.drop_last(), x), term_eval(p.last().0, x, p.last().1))
    }
}

/// Every machine-range condition of the polynomial merge holds.
pub open spec fn pmerge_fits(
    a: Seq<(Seq<(int, nat, nat)>, nat)>,
    b: Seq<(Seq<(int, nat, nat)>, nat)>,
) -> bool
    decreases a.len() + b.len(),
{
    if a.len() == 0 || b.len() == 0 {
        true
    } else if a[0].1 < b[0].1 {
        pmerge_fits(a.drop_first(), b)
    } else if b[0].1 < a[0].1 {
        pmerge_fits(a, b.drop_first())
    } else {
        merge_fits(a[0].0, b[0].0) && pmerge_fits(a.drop_first(), b.drop_first())
    }
}

/// Every machine-range condition of the polynomial term product holds.
pub open spec fn pterm_mul_fits(
    t: (Seq<(int, nat, nat)>, nat),
    b: Seq<(Seq<(int, nat, nat)>, nat)>,
) -> bool
    decreases b.len(),
{
    if b.len() == 0 {
        true
    } else {
        let c = cmul(t.0, b[0].0);
        let h: Seq<(Seq<(int, nat, nat)>, nat)> = if c.len() == 0 {
            Seq::empty()
        } else {
            seq![(c, t.1 + b[0].1)]
        };
        &&& crate::cyclotomic::cmul_fits(t.0, b[0].0)
        &&& t.1 + b[0].1 <= u64::MAX
        &&& pterm_mul_fits(t, b.drop_first())
        &&& pmerge_fits(h, pterm_mul(t, b.drop_first()))
    }
}

/// Every machine-range condition of the polynomial product holds.
pub open spec fn pmul_fits(
    a: Seq<(Seq<(int, nat, nat)>, nat)>,
    b: Seq<(Seq<(int, nat, nat)>, nat)>,
) -> bool
    decreases a.len(),
{
    if a.len() == 0 {
        true
    } else {
        &&& pterm_mul_fits(a[0], b)
        &&& pmul_fits(a.drop_first(), b)
        &&& pmerge_fits(pterm_mul(a[0], b), pmul(a.drop_first(), b))
    }
}

/// Every machine-range condition of the iterated power holds.
pub open spec fn termpow_fits(c: Seq<(int, nat, nat)>, x: Seq<(int, nat, nat)>, e: nat) -> bool
    decreases e,
{
    if e == 0 {
        true
    } else {
        termpow_fits(c, x, (e - 1) as nat) && crate::cyclotomic::cmul_fits(
            term_eval(c, x, (e - 1) as nat),
            x,
        )
    }
}

/// Every machine-range condition of the evaluation fold holds.
pub open spec fn eval_fits(p: Seq<(Seq<(int, nat, nat)>, nat)>, x: Seq<(int, nat, nat)>) -> bool
    decreases p.len(),
{
    if p.len() == 0 {
        true
    } else {
        &&& eval_fits(p.drop_last(), x)
        &&& termpow_fits(p.last().0, x, p.last().1)
        &&& merge_fits(peval(p.drop_last(), x), term_eval(p.last().0, x, p.last().1))
    }
}

/// A fitting evaluation fits on every prefix.
pub proof fn lemma_eval_fits_take(p: Seq<(Seq<(int, nat, nat)>, nat)>, x: Seq<(int, nat, nat)>, k: int)
    requires
        eval_fits(p, x),
        0 <= k <= p.len(),
    ensures
        eval_fits(p.take(k), x),
    decreases p.len() - k,
{
    if k == p.len() {
        assert(p.take(k) =~= p);
    } else {
        lemma_eval_fits_take(p, x, k + 1);
        assert(p.take(k + 1).drop_last() =~= p.take(k));
    }
}

/// A fitting power chain fits at every lower power.
pub proof fn lemma_termpow_at(c: Seq<(int, nat, nat)>, x: Seq<(int, nat, nat)>, e: nat, q: nat)
    requires
        termpow_fits(c, x, e),
        q < e,
    ensures
        crate::cyclotomic::cmul_fits(term_eval(c, x, q), x),
    decreases e,
{
    if q + 1 < e {
        lemma_termpow_at(c, x, (e - 1) as nat, q);
    }
}

impl View for GradedAlgebra<Cyclotomic, u64> {
    type V = Seq<(Seq<(int, nat, nat)>, nat)>;

    open spec fn view(&self) -> Seq<(Seq<(int, nat, nat)>, nat)> {
        pv(self.terms@)
    }
}

impl Clone for GradedAlgebra<Cyclotomic, u64> {
    /// An exact copy of the polynomial.
    fn clone(&self) -> (r: Self)
        ensures
            r@ == self@,
            r.terms@.len() == self.terms@.len(),
            forall|m: int|
                0 <= m < self.terms@.len() ==> (#[trigger] r.terms@[m]).0.terms@
                    == self.terms@[m].0.terms@ && r.terms@[m].1 == self.terms@[m].1,
    {
        let mut terms: Vec<(Cyclotomic, u64)> = Vec::new();
        let mut k: usize = 0;
        while k < self.terms.len()
            invariant
                k <= self.terms.len(),
                terms@.len() == k,
                forall|m: int|
                    0 <= m < k ==> (#[trigger] terms@[m]).0.terms@ == self.terms@[m].0.terms@
                        && terms@[m].1 == self.terms@[m].1,
            decreases self.terms.len() - k,
        {
            let (c, e) = (self.terms[k].0.clone(), self.terms[k].1);
            terms.push((c, e));
            k += 1;
        }
        let r = GradedAlgebra { terms };
        proof {
            assert(r@ =~= self@);
        }
        r
    }
}

impl GradedAlgebra<Cyclotomic, u64> {
    /// Canonical form plus the machine-side bounds on the stored terms.
    pub open spec fn wf(&self) -> bool {
        poly_wf_v(self@) && poly_stored_ok(self.terms@)
    }

    /// The zero polynomial.
    pub fn zero() -> (r: Self)
        ensures
            r.wf(),
            r@ == Seq::<(Seq<(int, nat, nat)>, nat)>::empty(),
    {
        let r = GradedAlgebra { terms: Vec::new() };
        proof {
            assert(r@ =~= Seq::<(Seq<(int, nat, nat)>, nat)>::empty());
        }
        r
    }

    /// The monomial `x^exponent`, with coefficient one.
    pub fn monomial(exponent: u64) -> (r: Self)
        ensures
            r.wf(),
            r@ == seq![(one_terms(), exponent as nat)],
    {
        let c = Cyclotomic::one();
        let mut terms: Vec<(Cyclotomic, u64)> = Vec::new();
        terms.push((c, exponent));
        let r = GradedAlgebra { terms };
        proof {
            assert(r@ =~= seq![(one_terms(), exponent as nat)]);
        }
        r
    }

    /// A constant polynomial; the zero polynomial when the coefficient is
    /// structurally zero.
    pub fn constant(c: Cyclotomic) -> (r: Self)
        requires
            c.wf(),
        ensures
            r.wf(),
            r@ == poly_const(c@),
    {
        if c.is_structural_zero() {
            Self::zero()
        } else {
            let mut terms: Vec<(Cyclotomic, u64)> = Vec::new();
            proof {
                let ghost cv = c@;
                assert(cv.len() > 0);
            }
            terms.push((c, 0u64));
            let r = GradedAlgebra { terms };
            proof {
                assert(r@ =~= poly_const(r.terms@[0].0@));
            }
            r
        }
    }

    /// Evaluates the polynomial at a cyclotomic number, by powers of the
    /// argument accumulated term by term: the result is the canonical sum
    /// of every coefficient times the matching power of the argument.
    pub fn eval(&self, value: &Cyclotomic) -> (r: Result<Cyclotomic, CoxeterError>)
        requires
            self.wf(),
            value.wf(),
        ensures
            r is Err ==> r->Err_0 == CoxeterError::Overflow,
            eval_fits(self@, value@) ==> r is Ok,
            r is Ok ==> r->Ok_0.wf() && r->Ok_0@ == peval(self@, value@),
    {
        let mut acc = Cyclotomic::zero();
        let mut k: usize = 0;
        proof {
            assert(self@.take(0) =~= Seq::<(Seq<(int, nat, nat)>, nat)>::empty());
        }
        while k < self.terms.len()
            invariant
                self.wf(),
                value.wf(),
                k <= self.terms.len(),
                acc.wf(),
                acc@ == peval(self@.take(k as int), value@),
            decreases self.terms.len() - k,
        {
            proof {
                assert(self@[k as int] == (self.terms@[k as int].0@, self.terms@[k as int].1
                    as nat));
                assert(cyc_wf(self.terms@[k as int].0@));
            }
            let mut term = self.terms[k].0.clone();
            proof {
                assert(term.wf()) by {
                    assert(term.terms@ == self.terms@[k as int].0.terms@);
                }
            }
            let e = self.terms[k].1;
            let ghost c0 = term@;
            proof {
                assert(self@.take(k + 1).drop_last() =~= self@.take(k as int));
                assert(self@.take(k + 1).last() == self@[k as int]);
            }
            let mut p: u64 = 0;
            while p < e
                invariant
                    self.wf(),
                    value.wf(),
                    term.wf(),
                    p <= e,
                    k < self.terms@.len(),
                    c0 == self@[k as int].0,
                    e == self@[k as int].1,
                    self@.take(k + 1).drop_last() == self@.take(k as int),
                    self@.take(k + 1).last() == self@[k as int],
                    term@ == term_eval(c0, value@, p as nat),
                decreases e - p,
            {
                term = match term.mul(value) {
                    Ok(t) => t,
                    Err(err) => {
                        proof {
                            if eval_fits(self@, value@) {
                                lemma_eval_fits_take(self@, value@, k + 1);
                                assert(termpow_fits(c0, value@, e as nat));
                                lemma_termpow_at(c0, value@, e as nat, p as nat);
                            }
                        }
                        return Err(err);
                    },
                };
                p += 1;
            }
            let acc2 = match acc.add(&term) {
                Ok(a) => a,
                Err(err) => {
                    proof {
                        if eval_fits(self@, value@) {
                            lemma_eval_fits_take(self@, value@, k + 1);
                        }
                    }
                    return Err(err);
                },
            };
            proof {
                assert(self@.take(k + 1).drop_last() =~= self@.take(k as int));
                assert(self@.take(k + 1).last() == self@[k as int]);
            }
            acc = acc2;
            k += 1;
        }
        proof {
            assert(self@.take(self@.len() as int) =~= self@);
        }
        Ok(acc)
    }

    /// Canonical sum of two polynomials.
    pub fn add_impl(&self, rhs: &Self) -> (r: Result<Self, CoxeterError>)
        requires
            self.wf(),
            rhs.wf(),
        ensures
            r is Err ==> r->Err_0 == CoxeterError::Overflow,
            r is Ok <==> pmerge_fits(self@, rhs@),
            r is Ok ==> r->Ok_0.wf() && r->Ok_0@ == pmerge(self@, rhs@),
    {
        proof {
            assert(pv(self.terms@).skip(0) =~= self@);
            assert(pv(rhs.terms@).skip(0) =~= rhs@);
            lemma_pwf_coeffs(self@);
            lemma_pwf_coeffs(rhs@);
        }
        match pmerge_rec(&self.terms, &rhs.terms, 0, 0) {
            Ok(terms) => {
                proof {
                    lemma_pmerge_wf(self@, rhs@);
                }
                Ok(GradedAlgebra { terms })
            },
            Err(e) => Err(e),
        }
    }

    /// Canonical negation of a polynomial.
    pub fn neg(&self) -> (r: Self)
        requires
            self.wf(),
        ensures
            r.wf(),
            r@ == ppneg(self@),
    {
        let mut terms: Vec<(Cyclotomic, u64)> = Vec::new();
        let mut k: usize = 0;
        while k < self.terms.len()
            invariant
                self.wf(),
                k <= self.terms.len(),
                terms@.len() == k,
                forall|m: int|
                    0 <= m < k ==> (#[trigger] terms@[m]).0@ == cneg(self.terms@[m].0@)
                        && terms@[m].1 == self.terms@[m].1 && stored_ok(terms@[m].0.terms@),
            decreases self.terms.len() - k,
        {
            proof {
                assert(self@[k as int] == (self.terms@[k as int].0@, self.terms@[k as int].1 as nat));
                assert(cyc_wf(self.terms@[k as int].0@));
            }
            let c = self.terms[k].0.neg();
            let e = self.terms[k].1;
            terms.push((c, e));
            k += 1;
        }
        let r = GradedAlgebra { terms };
        proof {
            assert(r@ =~= ppneg(self@));
            assert forall|i: int| 0 <= i < r@.len() implies (#[trigger] r@[i]).0.len() > 0
                && cyc_wf(r@[i].0) by {
                assert(r@[i].0 == cneg(self@[i].0));
                crate::cyclotomic::lemma_cneg_wf(self@[i].0);
            }
        }
        r
    }

    /// Canonical product of two polynomials.
    pub fn mul(&self, rhs: &Self) -> (r: Result<Self, CoxeterError>)
        requires
            self.wf(),
            rhs.wf(),
        ensures
            r is Err ==> r->Err_0 == CoxeterError::Overflow,
            r is Ok <==> pmul_fits(self@, rhs@),
            r is Ok ==> r->Ok_0.wf() && r->Ok_0@ == pmul(self@, rhs@),
    {
        proof {
            assert(pv(self.terms@).skip(0) =~= self@);
            lemma_pwf_coeffs(self@);
            lemma_pwf_coeffs(rhs@);
        }
        match pmul_rec(&self.terms, &rhs.terms, 0) {
            Ok(terms) => {
                proof {
                    lemma_pmul_wf(self@, rhs@);
                }
                Ok(GradedAlgebra { terms })
            },
            Err(e) => Err(e),
        }
    }
}

/// A constant polynomial's term list.
pub open spec fn poly_const(c: Seq<(int, nat, nat)>) -> Seq<(Seq<(int, nat, nat)>, nat)> {
    if c.len() == 0 {
        Seq::empty()
    } else {
        seq![(c, 0nat)]
    }
}

/// Merges the suffixes `a[i..]` and `b[j..]` of two polynomials.
#[verifier::rlimit(100)]
#[verifier::spinoff_prover]
fn pmerge_rec(a: &Vec<(Cyclotomic, u64)>, b: &Vec<(Cyclotomic, u64)>, i: usize, j: usize) -> (r:
    Result<Vec<(Cyclotomic, u64)>, CoxeterError>)
    requires
        poly_coeffs_ok(pv(a@)),
        poly_stored_ok(a@),
        poly_coeffs_ok(pv(b@)),
        poly_stored_ok(b@),
        i <= a.len(),
        j <= b.len(),
    ensures
        r is Err ==> r->Err_0 == CoxeterError::Overflow,
        r is Ok <==> pmerge_fits(pv(a@).skip(i as int), pv(b@).skip(j as int)),
        r is Ok ==> pv(r->Ok_0@) == pmerge(pv(a@).skip(i as int), pv(b@).skip(j as int))
            && poly_coeffs_ok(pv(r->Ok_0@)) && poly_stored_ok(r->Ok_0@),
    decreases a.len() - i + b.len() - j,
{
    let ghost av = pv(a@).skip(i as int);
    let ghost bv = pv(b@).skip(j as int);
    if i == a.len() {
        let r = copy_poly_from(b, j);
        proof {
            assert(av.len() == 0);
            assert(pv(r@) =~= bv);
        }
        Ok(r)
    } else if j == b.len() {
        let r = copy_poly_from(a, i);
        proof {
            assert(bv.len() == 0);
            assert(pv(r@) =~= av);
        }
        Ok(r)
    } else {
        let ea = a[i].1;
        let eb = b[j].1;
        proof {
            assert(av[0] == (a@[i as int].0@, ea as nat));
            assert(bv[0] == (b@[j as int].0@, eb as nat));
            assert(av.drop_first() =~= pv(a@).skip(i + 1));
            assert(bv.drop_first() =~= pv(b@).skip(j + 1));
        }
        if ea < eb {
            match pmerge_rec(a, b, i + 1, j) {
                Ok(mut r) => {
                    let t = (a[i].0.clone(), ea);
                    proof {
                        assert(t.0@ == a@[i as int].0@);
                    }
                    r.insert(0, t);
                    proof {
                        assert(pv(r@) =~= seq![av[0]] + pmerge(av.drop_first(), bv));
                    }
                    Ok(r)
                },
                Err(e) => Err(e),
            }
        } else if eb < ea {
            match pmerge_rec(a, b, i, j + 1) {
                Ok(mut r) => {
                    let t = (b[j].0.clone(), eb);
                    proof {
                        assert(t.0@ == b@[j as int].0@);
                    }
                    r.insert(0, t);
                    proof {
                        assert(pv(r@) =~= seq![bv[0]] + pmerge(av, bv.drop_first()));
                    }
                    Ok(r)
                },
                Err(e) => Err(e),
            }
        } else {
            proof {
                assert(cyc_wf(av[0].0) && cyc_wf(bv[0].0));
            }
            let c = match a[i].0.add(&b[j].0) {
                Ok(c) => c,
                Err(e) => {
                    return Err(e);
                },
            };
            if c.is_structural_zero() {
                pmerge_rec(a, b, i + 1, j + 1)
            } else {
                match pmerge_rec(a, b, i + 1, j + 1) {
                    Ok(mut r) => {
                        r.insert(0, (c, ea));
                        proof {
                            assert(pv(r@) =~= seq![(merge(av[0].0, bv[0].0), av[0].1)] + pmerge(
                                av.drop_first(),
                                bv.drop_first(),
                            ));
                        }
                        Ok(r)
                    },
                    Err(e) => Err(e),
                }
            }
        }
    }
}

/// Copies the tail of a polynomial term vector starting at `k`.
fn copy_poly_from(v: &Vec<(Cyclotomic, u64)>, k: usize) -> (r: Vec<(Cyclotomic, u64)>)
    requires
        k <= v.len(),
    ensures
        r@.len() == v@.len() - k,
        forall|m: int|
            0 <= m < r@.len() ==> (#[trigger] r@[m]).0.terms@ == v@[k + m].0.terms@ && r@[m].1
                == v@[k + m].1,
    decreases v.len() - k,
{
    if k == v.len() {
        Vec::new()
    } else {
        let mut r = copy_poly_from(v, k + 1);
        let t = (v[k].0.clone(), v[k].1);
        r.insert(0, t);
        r
    }
}

/// Canonical polynomials have canonical coefficients.
pub proof fn lemma_pwf_coeffs(s: Seq<(Seq<(int, nat, nat)>, nat)>)
    requires
        poly_wf_v(s),
    ensures
        poly_coeffs_ok(s),
{
}

/// Term products and full products of canonical polynomials are canonical.
pub proof fn lemma_pterm_mul_wf(t: (Seq<(int, nat, nat)>, nat), b: Seq<(Seq<(int, nat, nat)>, nat)>)
    requires
        cyc_wf(t.0),
        poly_wf_v(b),
    ensures
        poly_wf_v(pterm_mul(t, b)),
    decreases b.len(),
{
    if b.len() > 0 {
        lemma_pwf_suffix(b, 1);
        assert(b.skip(1) =~= b.drop_first());
        lemma_pterm_mul_wf(t, b.drop_first());
        lemma_cmul_wf(t.0, b[0].0);
        let c = cmul(t.0, b[0].0);
        let h: Seq<(Seq<(int, nat, nat)>, nat)> = if c.len() == 0 {
            Seq::empty()
        } else {
            seq![(c, t.1 + b[0].1)]
        };
        assert(poly_wf_v(h));
        lemma_pmerge_wf(h, pterm_mul(t, b.drop_first()));
    }
}

/// The product of canonical polynomials is canonical.
pub proof fn lemma_pmul_wf(a: Seq<(Seq<(int, nat, nat)>, nat)>, b: Seq<(Seq<(int, nat, nat)>, nat)>)
    requires
        poly_wf_v(a),
        poly_wf_v(b),
    ensures
        poly_wf_v(pmul(a, b)),
    decreases a.len(),
{
    if a.len() > 0 {
        lemma_pwf_suffix(a, 1);
        assert(a.skip(1) =~= a.drop_first());
        lemma_pmul_wf(a.drop_first(), b);
        lemma_pterm_mul_wf(a[0], b);
        lemma_pmerge_wf(pterm_mul(a[0], b), pmul(a.drop_first(), b));
    }
}

/// A suffix of a canonical polynomial is canonical.
pub proof fn lemma_pwf_suffix(s: Seq<(Seq<(int, nat, nat)>, nat)>, i: int)
    requires
        poly_wf_v(s),
        0 <= i <= s.len(),
    ensures
        poly_wf_v(s.skip(i)),
{
    assert(forall|m: int| 0 <= m < s.skip(i).len() ==> s.skip(i)[m] == s[m + i]);
}

/// Exponents in a canonical polynomial grow along the list.
pub proof fn lemma_pexp_chain(s: Seq<(Seq<(int, nat, nat)>, nat)>, i: int, j: int)
    requires
        poly_wf_v(s),
        0 <= i < j < s.len(),
    ensures
        s[i].1 < s[j].1,
    decreases j - i,
{
    if j > i + 1 {
        lemma_pexp_chain(s, i, j - 1);
    }
}

/// The merge of canonical polynomials is canonical.
#[verifier::rlimit(100)]
#[verifier::spinoff_prover]
pub proof fn lemma_pmerge_wf(
    a: Seq<(Seq<(int, nat, nat)>, nat)>,
    b: Seq<(Seq<(int, nat, nat)>, nat)>,
)
    requires
        poly_wf_v(a),
        poly_wf_v(b),
    ensures
        poly_wf_v(pmerge(a, b)),
    decreases a.len() + b.len(),
{
    if a.len() == 0 || b.len() == 0 {
    } else {
        lemma_pwf_suffix(a, 1);
        lemma_pwf_suffix(b, 1);
        assert(a.skip(1) =~= a.drop_first());
        assert(b.skip(1) =~= b.drop_first());
        if a[0].1 < b[0].1 {
            lemma_pmerge_wf(a.drop_first(), b);
            let m = pmerge(a.drop_first(), b);
            let r = pmerge(a, b);
            assert(r == seq![a[0]] + m);
            assert forall|i: int| 0 <= i < a.drop_first().len() implies a[0].1 < (
            #[trigger] a.drop_first()[i]).1 by {
                lemma_pexp_chain(a, 0, i + 1);
            }
            assert forall|i: int| 0 <= i < b.len() implies a[0].1 < (#[trigger] b[i]).1 by {
                if i > 0 {
                    lemma_pexp_chain(b, 0, i);
                }
            }
            lemma_pmerge_low(a[0].1, a.drop_first(), b);
            assert forall|i: int| 0 <= i && i + 1 < r.len() implies (#[trigger] r[i]).1 < r[i
                + 1].1 by {
                if i == 0 {
                } else {
                    assert(r[i] == m[i - 1] && r[i + 1] == m[i]);
                }
            }
        } else if b[0].1 < a[0].1 {
            lemma_pmerge_wf(a, b.drop_first());
            let m = pmerge(a, b.drop_first());
            let r = pmerge(a, b);
            assert(r == seq![b[0]] + m);
            assert forall|i: int| 0 <= i < b.drop_first().len() implies b[0].1 < (
            #[trigger] b.drop_first()[i]).1 by {
                lemma_pexp_chain(b, 0, i + 1);
            }
            assert forall|i: int| 0 <= i < a.len() implies b[0].1 < (#[trigger] a[i]).1 by {
                if i > 0 {
                    lemma_pexp_chain(a, 0, i);
                }
            }
            lemma_pmerge_low(b[0].1, a, b.drop_first());
            assert forall|i: int| 0 <= i && i + 1 < r.len() implies (#[trigger] r[i]).1 < r[i
                + 1].1 by {
                if i == 0 {
                } else {
                    assert(r[i] == m[i - 1] && r[i + 1] == m[i]);
                }
            }
        } else {
            lemma_pmerge_wf(a.drop_first(), b.drop_first());
            let m = pmerge(a.drop_first(), b.drop_first());
            let c = merge(a[0].0, b[0].0);
            lemma_merge_wf(a[0].0, b[0].0);
            assert forall|i: int| 0 <= i < a.drop_first().len() implies a[0].1 < (
            #[trigger] a.drop_first()[i]).1 by {
                lemma_pexp_chain(a, 0, i + 1);
            }
            assert forall|i: int| 0 <= i < b.drop_first().len() implies a[0].1 < (
            #[trigger] b.drop_first()[i]).1 by {
                lemma_pexp_chain(b, 0, i + 1);
            }
            lemma_pmerge_low(a[0].1, a.drop_first(), b.drop_first());
            if c.len() != 0 {
                let r = pmerge(a, b);
                assert(r == seq![(c, a[0].1)] + m);
                assert forall|i: int| 0 <= i && i + 1 < r.len() implies (#[trigger] r[i]).1 < r[i
                    + 1].1 by {
                    if i == 0 {
                    } else {
                        assert(r[i] == m[i - 1] && r[i + 1] == m[i]);
                    }
                }
            }
        }
    }
}

/// Every exponent of a merge lies above a common strict lower bound.
pub proof fn lemma_pmerge_low(
    e: nat,
    a: Seq<(Seq<(int, nat, nat)>, nat)>,
    b: Seq<(Seq<(int, nat, nat)>, nat)>,
)
    requires
        poly_wf_v(a),
        poly_wf_v(b),
        forall|i: int| 0 <= i < a.len() ==> e < (#[trigger] a[i]).1,
        forall|i: int| 0 <= i < b.len() ==> e < (#[trigger] b[i]).1,
    ensures
        forall|i: int| 0 <= i < pmerge(a, b).len() ==> e < (#[trigger] pmerge(a, b)[i]).1,
    decreases a.len() + b.len(),
{
    if a.len() == 0 || b.len() == 0 {
    } else {
        lemma_pwf_suffix(a, 1);
        lemma_pwf_suffix(b, 1);
        assert(a.skip(1) =~= a.drop_first());
        assert(b.skip(1) =~= b.drop_first());
        if a[0].1 < b[0].1 {
            lemma_pmerge_low(e, a.drop_first(), b);
            let m = pmerge(a.drop_first(), b);
            let r = pmerge(a, b);
            assert(r == seq![a[0]] + m);
            assert forall|i: int| 0 <= i < r.len() implies e < (#[trigger] r[i]).1 by {
                if i > 0 {
                    assert(r[i] == m[i - 1]);
                }
            }
        } else if b[0].1 < a[0].1 {
            lemma_pmerge_low(e, a, b.drop_first());
            let m = pmerge(a, b.drop_first());
            let r = pmerge(a, b);
            assert(r == seq![b[0]] + m);
            assert forall|i: int| 0 <= i < r.len() implies e < (#[trigger] r[i]).1 by {
                if i > 0 {
                    assert(r[i] == m[i - 1]);
                }
            }
        } else {
            lemma_pmerge_low(e, a.drop_first(), b.drop_first());
            let m = pmerge(a.drop_first(), b.drop_first());
            let r = pmerge(a, b);
            let c = merge(a[0].0, b[0].0);
            if c.len() == 0 {
                assert(r == m);
            } else {
                assert(r == seq![(c, a[0].1)] + m);
                assert forall|i: int| 0 <= i < r.len() implies e < (#[trigger] r[i]).1 by {
                    if i > 0 {
                        assert(r[i] == m[i - 1]);
                    }
                }
            }
        }
    }
}

/// Multiplies the stored polynomial term `t` with the suffix `b[j..]`.
fn pterm_mul_rec(t: &(Cyclotomic, u64), b: &Vec<(Cyclotomic, u64)>, j: usize) -> (r: Result<
    Vec<(Cyclotomic, u64)>,
    CoxeterError,
>)
    requires
        t.0.wf(),
        poly_coeffs_ok(pv(b@)),
        poly_stored_ok(b@),
        j <= b.len(),
    ensures
        r is Err ==> r->Err_0 == CoxeterError::Overflow,
        r is Ok <==> pterm_mul_fits((t.0@, t.1 as nat), pv(b@).skip(j as int)),
        r is Ok ==> pv(r->Ok_0@) == pterm_mul((t.0@, t.1 as nat), pv(b@).skip(j as int))
            && poly_coeffs_ok(pv(r->Ok_0@)) && poly_stored_ok(r->Ok_0@),
    decreases b.len() - j,
{
    let ghost tvv = (t.0@, t.1 as nat);
    let ghost bv = pv(b@).skip(j as int);
    if j == b.len() {
        let r: Vec<(Cyclotomic, u64)> = Vec::new();
        proof {
            assert(pv(r@) =~= Seq::<(Seq<(int, nat, nat)>, nat)>::empty());
        }
        Ok(r)
    } else {
        proof {
            assert(bv[0] == (b@[j as int].0@, b@[j as int].1 as nat));
            assert(bv.drop_first() =~= pv(b@).skip(j + 1));
            assert(cyc_wf(pv(b@)[j as int].0));
        }
        let c = match t.0.mul(&b[j].0) {
            Ok(c) => c,
            Err(e) => {
                return Err(e);
            },
        };
        let e: u64 = match t.1.checked_add(b[j].1) {
            Some(e) => e,
            None => {
                return Err(CoxeterError::Overflow);
            },
        };
        let mut head: Vec<(Cyclotomic, u64)> = Vec::new();
        if !c.is_structural_zero() {
            head.push((c, e));
        }
        proof {
            let ghost hs: Seq<(Seq<(int, nat, nat)>, nat)> = if cmul(tvv.0, bv[0].0).len() == 0 {
                Seq::empty()
            } else {
                seq![(cmul(tvv.0, bv[0].0), tvv.1 + bv[0].1)]
            };
            assert(pv(head@) =~= hs);
            lemma_cmul_wf(tvv.0, bv[0].0);
        }
        match pterm_mul_rec(t, b, j + 1) {
            Ok(rest) => {
                proof {
                    assert(pv(head@).skip(0) =~= pv(head@));
                    assert(pv(rest@).skip(0) =~= pv(rest@));
                }
                pmerge_rec(&head, &rest, 0, 0)
            },
            Err(e) => Err(e),
        }
    }
}

/// Multiplies the suffix `a[i..]` with the whole polynomial `b`.
fn pmul_rec(a: &Vec<(Cyclotomic, u64)>, b: &Vec<(Cyclotomic, u64)>, i: usize) -> (r: Result<
    Vec<(Cyclotomic, u64)>,
    CoxeterError,
>)
    requires
        poly_coeffs_ok(pv(a@)),
        poly_stored_ok(a@),
        poly_coeffs_ok(pv(b@)),
        poly_stored_ok(b@),
        i <= a.len(),
    ensures
        r is Err ==> r->Err_0 == CoxeterError::Overflow,
        r is Ok <==> pmul_fits(pv(a@).skip(i as int), pv(b@)),
        r is Ok ==> pv(r->Ok_0@) == pmul(pv(a@).skip(i as int), pv(b@)) && poly_coeffs_ok(
            pv(r->Ok_0@),
        ) && poly_stored_ok(r->Ok_0@),
    decreases a.len() - i,
{
    let ghost av = pv(a@).skip(i as int);
    if i == a.len() {
        let r: Vec<(Cyclotomic, u64)> = Vec::new();
        proof {
            assert(pv(r@) =~= Seq::<(Seq<(int, nat, nat)>, nat)>::empty());
        }
        Ok(r)
    } else {
        proof {
            assert(av[0] == (a@[i as int].0@, a@[i as int].1 as nat));
            assert(av.drop_first() =~= pv(a@).skip(i + 1));
        }
        let t = (a[i].0.clone(), a[i].1);
        proof {
            assert(pv(a@)[i as int] == (a@[i as int].0@, a@[i as int].1 as nat));
            assert(t.0@ == a@[i as int].0@);
            assert(cyc_wf(t.0@));
        }
        proof {
            assert(pv(b@).skip(0) =~= pv(b@));
        }
        match pterm_mul_rec(&t, b, 0) {
            Ok(tm) => {
                match pmul_rec(a, b, i + 1) {
                    Ok(rest) => {
                        proof {
                            assert(pv(tm@).skip(0) =~= pv(tm@));
                            assert(pv(rest@).skip(0) =~= pv(rest@));
                        }
                        match pmerge_rec(&tm, &rest, 0, 0) {
                            Ok(out) => {
                                proof {
                                    assert(pmul_fits(av, pv(b@)));
                                }
                                Ok(out)
                            },
                            Err(e) => {
                                proof {
                                    assert(!pmerge_fits(pterm_mul(av[0], pv(b@)), pmul(
                                        av.drop_first(),
                                        pv(b@),
                                    )));
                                    assert(!pmul_fits(av, pv(b@)));
                                }
                                Err(e)
                            },
                        }
                    },
                    Err(e) => {
                        proof {
                            assert(!pmul_fits(av.drop_first(), pv(b@)));
                            assert(!pmul_fits(av, pv(b@)));
                        }
                        Err(e)
                    },
                }
            },
            Err(e) => {
                proof {
                    assert(!pterm_mul_fits(av[0], pv(b@)));
                    assert(!pmul_fits(av, pv(b@)));
                }
                Err(e)
            },
        }
    }
}

} // verus!
