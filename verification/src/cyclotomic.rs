use crate::graded_algebra::GradedAlgebra;
use crate::prufer_group::{
    grade_lt, grade_ok, lemma_grade_total, spec_grade_add, spec_grade_neg, spec_reduce,
    PruferGroup, GRADE_DENOM_MAX,
};
use crate::CoxeterError;
use vstd::prelude::*;

verus! {

/// A cyclotomic number: a formal integer combination of roots of unity,
/// stored as a zero-free term list sorted strictly by grade. The grade
/// `n / d` stands for the root of unity `exp(2*pi*i*n/d)`.
pub type Cyclotomic = GradedAlgebra<i64, PruferGroup>;

/// The mathematical reading of one stored term.
pub open spec fn tv(s: Seq<(i64, PruferGroup)>) -> Seq<(int, nat, nat)> {
    s.map_values(|t: (i64, PruferGroup)| (t.0 as int, t.1.numer as nat, t.1.denom as nat))
}

/// The grade of a term.
pub open spec fn tg(t: (int, nat, nat)) -> (nat, nat) {
    (t.1, t.2)
}

/// Every term has a nonzero coefficient and a reduced grade.
pub open spec fn terms_ok(s: Seq<(int, nat, nat)>) -> bool {
    forall|i: int| 0 <= i < s.len() ==> (#[trigger] s[i]).0 != 0 && grade_ok(tg(s[i]))
}

/// Grades are strictly increasing along the list.
pub open spec fn terms_sorted(s: Seq<(int, nat, nat)>) -> bool {
    forall|i: int| 0 <= i && i + 1 < s.len() ==> grade_lt(tg(#[trigger] s[i]), tg(s[i + 1]))
}

/// The canonical form: zero-free, reduced grades, strictly sorted.
pub open spec fn cyc_wf(s: Seq<(int, nat, nat)>) -> bool {
    terms_ok(s) && terms_sorted(s)
}

/// Every grade in the list lies strictly above `g`.
pub open spec fn all_above(g: (nat, nat), s: Seq<(int, nat, nat)>) -> bool {
    forall|i: int| 0 <= i < s.len() ==> grade_lt(g, tg(#[trigger] s[i]))
}

/// Canonical sum of two canonical term lists: merge by grade, adding the
/// coefficients of equal grades and dropping the terms that cancel.
pub open spec fn merge(a: Seq<(int, nat, nat)>, b: Seq<(int, nat, nat)>) -> Seq<(int, nat, nat)>
    decreases a.len() + b.len(),
{
    if a.len() == 0 {
        b
    } else if b.len() == 0 {
        a
    } else if grade_lt(tg(a[0]), tg(b[0])) {
        seq![a[0]] + merge(a.drop_first(), b)
    } else if grade_lt(tg(b[0]), tg(a[0])) {
        seq![b[0]] + merge(a, b.drop_first())
    } else {
        let c = a[0].0 + b[0].0;
        if c == 0 {
            merge(a.drop_first(), b.drop_first())
        } else {
            seq![(c, a[0].1, a[0].2)] + merge(a.drop_first(), b.drop_first())
        }
    }
}

/// Every coefficient sum formed by the merge stays within machine range.
pub open spec fn merge_fits(a: Seq<(int, nat, nat)>, b: Seq<(int, nat, nat)>) -> bool
    decreases a.len() + b.len(),
{
    if a.len() == 0 || b.len() == 0 {
        true
    } else if grade_lt(tg(a[0]), tg(b[0])) {
        merge_fits(a.drop_first(), b)
    } else if grade_lt(tg(b[0]), tg(a[0])) {
        merge_fits(a, b.drop_first())
    } else {
        -(i64::MAX as int) <= a[0].0 + b[0].0 <= i64::MAX as int && merge_fits(
            a.drop_first(),
            b.drop_first(),
        )
    }
}

/// Termwise negation.
pub open spec fn cneg(s: Seq<(int, nat, nat)>) -> Seq<(int, nat, nat)> {
    s.map_values(|t: (int, nat, nat)| (-t.0, t.1, t.2))
}

/// The coefficient the list carries at grade `g`.
pub open spec fn coeff_at(s: Seq<(int, nat, nat)>, g: (nat, nat)) -> int
    decreases s.len(),
{
    if s.len() == 0 {
        0
    } else {
        (if tg(s[0]) == g {
            s[0].0
        } else {
            0
        }) + coeff_at(s.drop_first(), g)
    }
}

/// The term list of the number one: the single term of grade zero.
pub open spec fn one_terms() -> Seq<(int, nat, nat)> {
    seq![(1int, 0nat, 1nat)]
}

/// The term list of an embedded integer.
pub open spec fn int_terms(v: int) -> Seq<(int, nat, nat)> {
    if v == 0 {
        Seq::empty()
    } else {
        seq![(v, 0nat, 1nat)]
    }
}

/// The term list of a root of unity of the given order and exponent.
pub open spec fn root_terms(order: nat, exponent: nat) -> Seq<(int, nat, nat)>
    recommends
        order > 0,
{
    let g = spec_reduce(exponent % order, order);
    seq![(1int, g.0, g.1)]
}

/// Merging keeps every grade above any common strict lower bound.
pub proof fn lemma_merge_above(g: (nat, nat), a: Seq<(int, nat, nat)>, b: Seq<(int, nat, nat)>)
    requires
        all_above(g, a),
        all_above(g, b),
    ensures
        all_above(g, merge(a, b)),
    decreases a.len() + b.len(),
{
    if a.len() == 0 || b.len() == 0 {
    } else {
        assert(all_above(g, a.drop_first()));
        assert(all_above(g, b.drop_first()));
        if grade_lt(tg(a[0]), tg(b[0])) {
            lemma_merge_above(g, a.drop_first(), b);
        } else if grade_lt(tg(b[0]), tg(a[0])) {
            lemma_merge_above(g, a, b.drop_first());
        } else {
            lemma_merge_above(g, a.drop_first(), b.drop_first());
        }
    }
}

/// A canonical list's tail lies strictly above its head grade.
pub proof fn lemma_wf_above(s: Seq<(int, nat, nat)>)
    requires
        cyc_wf(s),
        s.len() > 0,
    ensures
        all_above(tg(s[0]), s.drop_first()),
        cyc_wf(s.drop_first()),
    decreases s.len(),
{
    let t = s.drop_first();
    assert forall|i: int| 0 <= i < t.len() implies grade_lt(tg(s[0]), tg(#[trigger] t[i])) by {
        lemma_sorted_chain(s, 0, i + 1);
    }
}

/// In a sorted list any earlier grade is strictly below any later one.
pub proof fn lemma_sorted_chain(s: Seq<(int, nat, nat)>, i: int, j: int)
    requires
        terms_ok(s),
        terms_sorted(s),
        0 <= i < j < s.len(),
    ensures
        grade_lt(tg(s[i]), tg(s[j])),
    decreases j - i,
{
    if j == i + 1 {
    } else {
        lemma_sorted_chain(s, i, j - 1);
        crate::prufer_group::lemma_grade_trans(tg(s[i]), tg(s[j - 1]), tg(s[j]));
    }
}

/// Negation keeps the canonical form and the length.
pub proof fn lemma_cneg_wf(s: Seq<(int, nat, nat)>)
    requires
        cyc_wf(s),
    ensures
        cyc_wf(cneg(s)),
        cneg(s).len() == s.len(),
{
    assert(forall|i: int| 0 <= i < s.len() ==> tg(#[trigger] cneg(s)[i]) == tg(s[i]));
}

/// The merge of canonical lists is canonical.
pub proof fn lemma_merge_wf(a: Seq<(int, nat, nat)>, b: Seq<(int, nat, nat)>)
    requires
        cyc_wf(a),
        cyc_wf(b),
    ensures
        cyc_wf(merge(a, b)),
    decreases a.len() + b.len(),
{
    if a.len() == 0 || b.len() == 0 {
    } else {
        let a0 = a[0];
        let b0 = b[0];
        lemma_wf_above(a);
        lemma_wf_above(b);
        if grade_lt(tg(a0), tg(b0)) {
            lemma_merge_wf(a.drop_first(), b);
            let m = merge(a.drop_first(), b);
            assert(all_above(tg(a0), b)) by {
                assert forall|i: int| 0 <= i < b.len() implies grade_lt(
                    tg(a0),
                    tg(#[trigger] b[i]),
                ) by {
                    if i > 0 {
                        lemma_sorted_chain(b, 0, i);
                        crate::prufer_group::lemma_grade_trans(tg(a0), tg(b0), tg(b[i]));
                    }
                }
            }
            lemma_merge_above(tg(a0), a.drop_first(), b);
            let r = merge(a, b);
            assert(r == seq![a0] + m);
            assert(r.drop_first() == m);
            assert forall|i: int| 0 <= i && i + 1 < r.len() implies grade_lt(
                tg(#[trigger] r[i]),
                tg(r[i + 1]),
            ) by {
                if i == 0 {
                    assert(grade_lt(tg(a0), tg(m[0])));
                } else {
                    assert(r[i] == m[i - 1] && r[i + 1] == m[i]);
                }
            }
        } else if grade_lt(tg(b0), tg(a0)) {
            lemma_merge_wf(a, b.drop_first());
            let m = merge(a, b.drop_first());
            assert(all_above(tg(b0), a)) by {
                assert forall|i: int| 0 <= i < a.len() implies grade_lt(
                    tg(b0),
                    tg(#[trigger] a[i]),
                ) by {
                    if i > 0 {
                        lemma_sorted_chain(a, 0, i);
                        crate::prufer_group::lemma_grade_trans(tg(b0), tg(a0), tg(a[i]));
                    }
                }
            }
            lemma_merge_above(tg(b0), a, b.drop_first());
            let r = merge(a, b);
            assert(r == seq![b0] + m);
            assert(r.drop_first() == m);
            assert forall|i: int| 0 <= i && i + 1 < r.len() implies grade_lt(
                tg(#[trigger] r[i]),
                tg(r[i + 1]),
            ) by {
                if i == 0 {
                    assert(grade_lt(tg(b0), tg(m[0])));
                } else {
                    assert(r[i] == m[i - 1] && r[i + 1] == m[i]);
                }
            }
        } else {
            lemma_grade_total(tg(a0), tg(b0));
            lemma_merge_wf(a.drop_first(), b.drop_first());
            let m = merge(a.drop_first(), b.drop_first());
            lemma_merge_above(tg(a0), a.drop_first(), b.drop_first());
            let c = a0.0 + b0.0;
            if c != 0 {
                let r = merge(a, b);
                assert(r == seq![(c, a0.1, a0.2)] + m);
                assert(r.drop_first() == m);
                assert(tg(r[0]) == tg(a0));
                assert forall|i: int| 0 <= i && i + 1 < r.len() implies grade_lt(
                    tg(#[trigger] r[i]),
                    tg(r[i + 1]),
                ) by {
                    if i == 0 {
                        assert(grade_lt(tg(a0), tg(m[0])));
                    } else {
                        assert(r[i] == m[i - 1] && r[i + 1] == m[i]);
                    }
                }
            } else {
                let r = merge(a, b);
                assert(r == m);
                if r.len() > 0 {
                    assert(grade_lt(tg(a0), tg(r[0])));
                }
            }
        }
    }
}

/// Machine-side well-formedness of a stored term list: reduced bounded
/// grades and coefficients that negation cannot overflow.
pub open spec fn stored_ok(s: Seq<(i64, PruferGroup)>) -> bool {
    forall|i: int|
        0 <= i < s.len() ==> (#[trigger] s[i]).1.wf() && s[i].0 != i64::MIN
}

/// Copies the tail of a term vector starting at `k`.
fn copy_from(v: &Vec<(i64, PruferGroup)>, k: usize) -> (r: Vec<(i64, PruferGroup)>)
    requires
        k <= v.len(),
    ensures
        r@ == v@.skip(k as int),
    decreases v.len() - k,
{
    if k == v.len() {
        let r: Vec<(i64, PruferGroup)> = Vec::new();
        proof {
            assert(r@ =~= v@.skip(k as int));
        }
        r
    } else {
        let mut r = copy_from(v, k + 1);
        let t = v[k];
        r.insert(0, t);
        proof {
            assert(r@ =~= v@.skip(k as int));
        }
        r
    }
}

/// Merges the suffixes `a[i..]` and `b[j..]`; fails exactly when some
/// coefficient sum leaves the machine range.
fn merge_rec(a: &Vec<(i64, PruferGroup)>, b: &Vec<(i64, PruferGroup)>, i: usize, j: usize) -> (r:
    Result<Vec<(i64, PruferGroup)>, CoxeterError>)
    requires
        stored_ok(a@),
        stored_ok(b@),
        i <= a.len(),
        j <= b.len(),
    ensures
        r is Err ==> r->Err_0 == CoxeterError::Overflow,
        r is Ok <==> merge_fits(tv(a@).skip(i as int), tv(b@).skip(j as int)),
        r is Ok ==> tv(r->Ok_0@) == merge(tv(a@).skip(i as int), tv(b@).skip(j as int))
            && stored_ok(r->Ok_0@),
    decreases a.len() - i + b.len() - j,
{
    let ghost av = tv(a@).skip(i as int);
    let ghost bv = tv(b@).skip(j as int);
    if i == a.len() {
        let r = copy_from(b, j);
        proof {
            assert(av.len() == 0);
            assert(tv(r@) =~= bv);
            assert(stored_ok(r@)) by {
                assert(forall|k: int|
                    0 <= k < r@.len() ==> r@[k] == b@[j + k]);
            }
        }
        Ok(r)
    } else if j == b.len() {
        let r = copy_from(a, i);
        proof {
            assert(bv.len() == 0);
            assert(tv(r@) =~= av);
            assert(stored_ok(r@)) by {
                assert(forall|k: int|
                    0 <= k < r@.len() ==> r@[k] == a@[i + k]);
            }
        }
        Ok(r)
    } else {
        let ta = a[i];
        let tb = b[j];
        proof {
            assert(av[0] == (ta.0 as int, ta.1.numer as nat, ta.1.denom as nat));
            assert(bv[0] == (tb.0 as int, tb.1.numer as nat, tb.1.denom as nat));
            assert(av.drop_first() =~= tv(a@).skip(i + 1));
            assert(bv.drop_first() =~= tv(b@).skip(j + 1));
        }
        if ta.1.lt(&tb.1) {
            match merge_rec(a, b, i + 1, j) {
                Ok(mut r) => {
                    r.insert(0, ta);
                    proof {
                        assert(tv(r@) =~= seq![av[0]] + merge(av.drop_first(), bv));
                    }
                    Ok(r)
                },
                Err(e) => Err(e),
            }
        } else if tb.1.lt(&ta.1) {
            match merge_rec(a, b, i, j + 1) {
                Ok(mut r) => {
                    r.insert(0, tb);
                    proof {
                        assert(tv(r@) =~= seq![bv[0]] + merge(av, bv.drop_first()));
                    }
                    Ok(r)
                },
                Err(e) => Err(e),
            }
        } else {
            let c: i128 = ta.0 as i128 + tb.0 as i128;
            if c > i64::MAX as i128 || c < -(i64::MAX as i128) {
                Err(CoxeterError::Overflow)
            } else if c == 0 {
                merge_rec(a, b, i + 1, j + 1)
            } else {
                match merge_rec(a, b, i + 1, j + 1) {
                    Ok(mut r) => {
                        r.insert(0, (c as i64, ta.1));
                        proof {
                            assert(tv(r@) =~= seq![(c as int, ta.1.numer as nat,
                                ta.1.denom as nat)] + merge(av.drop_first(), bv.drop_first()));
                        }
                        Ok(r)
                    },
                    Err(e) => Err(e),
                }
            }
        }
    }
}

impl View for GradedAlgebra<i64, PruferGroup> {
    type V = Seq<(int, nat, nat)>;

    open spec fn view(&self) -> Seq<(int, nat, nat)> {
        tv(self.terms@)
    }
}

impl Clone for GradedAlgebra<i64, PruferGroup> {
    /// An exact copy of the term list.
    fn clone(&self) -> (r: Self)
        ensures
            r.terms@ == self.terms@,
    {
        let r = GradedAlgebra { terms: copy_from(&self.terms, 0) };
        proof {
            assert(r.terms@ =~= self.terms@);
        }
        r
    }
}

impl GradedAlgebra<i64, PruferGroup> {
    /// Canonical form plus the machine-side bounds on the stored terms.
    pub open spec fn wf(&self) -> bool {
        cyc_wf(self@) && stored_ok(self.terms@)
    }

    /// The zero element: the empty formal sum.
    pub fn zero() -> (r: Self)
        ensures
            r.wf(),
            r@ == Seq::<(int, nat, nat)>::empty(),
    {
        let r = GradedAlgebra { terms: Vec::new() };
        proof {
            assert(r@ =~= Seq::<(int, nat, nat)>::empty());
        }
        r
    }

    /// The unit element: coefficient one at grade zero.
    pub fn one() -> (r: Self)
        ensures
            r.wf(),
            r@ == one_terms(),
    {
        let g = PruferGroup::zero();
        let mut terms: Vec<(i64, PruferGroup)> = Vec::new();
        terms.push((1i64, g));
        let r = GradedAlgebra { terms };
        proof {
            assert(r@ =~= one_terms());
        }
        r
    }

    /// Embeds an integer as the constant term.
    pub fn from_int(value: i64) -> (r: Self)
        requires
            value != i64::MIN,
        ensures
            r.wf(),
            r@ == int_terms(value as int),
    {
        if value == 0 {
            Self::zero()
        } else {
            let g = PruferGroup::zero();
            let mut terms: Vec<(i64, PruferGroup)> = Vec::new();
            terms.push((value, g));
            let r = GradedAlgebra { terms };
            proof {
                assert(r@ =~= int_terms(value as int));
            }
            r
        }
    }

    /// The root of unity `exp(2*pi*i*exponent/order)`, as a single term.
    pub fn root_of_unity(order: u64, exponent: u64) -> (r: Self)
        requires
            0 < order <= GRADE_DENOM_MAX,
        ensures
            r.wf(),
            r@ == root_terms(order as nat, exponent as nat),
    {
        let g = PruferGroup::new(exponent, order);
        let mut terms: Vec<(i64, PruferGroup)> = Vec::new();
        terms.push((1i64, g));
        let r = GradedAlgebra { terms };
        proof {
            assert(r@ =~= root_terms(order as nat, exponent as nat));
        }
        r
    }

    /// Exact negation: flips every coefficient.
    pub fn neg(&self) -> (r: Self)
        requires
            self.wf(),
        ensures
            r.wf(),
            r@ == cneg(self@),
        decreases self.terms.len(),
    {
        let mut terms: Vec<(i64, PruferGroup)> = Vec::new();
        let mut k: usize = 0;
        while k < self.terms.len()
            invariant
                self.wf(),
                k <= self.terms.len(),
                terms@.len() == k,
                forall|m: int|
                    0 <= m < k ==> terms@[m] == ((-(self.terms@[m].0 as int)) as i64,
                    self.terms@[m].1),
            decreases self.terms.len() - k,
        {
            let (c, g) = self.terms[k];
            terms.push((-c, g));
            k += 1;
        }
        let r = GradedAlgebra { terms };
        proof {
            assert(r@ =~= cneg(self@));
            assert(stored_ok(r.terms@));
            assert(terms_ok(r@)) by {
                assert(forall|m: int| 0 <= m < r@.len() ==> tg(#[trigger] r@[m]) == tg(self@[m]));
            }
            assert(terms_sorted(r@)) by {
                assert(forall|m: int| 0 <= m < r@.len() ==> tg(#[trigger] r@[m]) == tg(self@[m]));
            }
        }
        r
    }

    /// Canonical sum; fails exactly when a coefficient sum leaves the
    /// machine range.
    pub fn add(&self, rhs: &Self) -> (r: Result<Self, CoxeterError>)
        requires
            self.wf(),
            rhs.wf(),
        ensures
            r is Err ==> r->Err_0 == CoxeterError::Overflow,
            r is Ok <==> merge_fits(self@, rhs@),
            r is Ok ==> r->Ok_0.wf() && r->Ok_0@ == merge(self@, rhs@),
    {
        proof {
            assert(tv(self.terms@).skip(0) =~= self@);
            assert(tv(rhs.terms@).skip(0) =~= rhs@);
        }
        match merge_rec(&self.terms, &rhs.terms, 0, 0) {
            Ok(terms) => {
                let r = GradedAlgebra { terms };
                proof {
                    lemma_merge_wf(self@, rhs@);
                }
                Ok(r)
            },
            Err(e) => Err(e),
        }
    }

    /// Canonical difference, `self + (-rhs)`.
    pub fn sub(&self, rhs: &Self) -> (r: Result<Self, CoxeterError>)
        requires
            self.wf(),
            rhs.wf(),
        ensures
            r is Err ==> r->Err_0 == CoxeterError::Overflow,
            r is Ok <==> merge_fits(self@, cneg(rhs@)),
            r is Ok ==> r->Ok_0.wf() && r->Ok_0@ == merge(self@, cneg(rhs@)),
    {
        let n = rhs.neg();
        self.add(&n)
    }

    /// True exactly of the empty formal sum (the canonical zero).
    pub fn is_structural_zero(&self) -> (r: bool)
        ensures
            r == (self@.len() == 0),
    {
        self.terms.len() == 0
    }
}

/// A one-term list, or empty when the coefficient vanishes.
pub open spec fn single(c: int, g: (nat, nat)) -> Seq<(int, nat, nat)> {
    if c == 0 {
        Seq::empty()
    } else {
        seq![(c, g.0, g.1)]
    }
}

/// The product of one term with a term list: coefficients multiply and
/// grades add modulo 1, the results merged into canonical form.
pub open spec fn term_mul(t: (int, nat, nat), b: Seq<(int, nat, nat)>) -> Seq<(int, nat, nat)>
    decreases b.len(),
{
    if b.len() == 0 {
        Seq::empty()
    } else {
        merge(
            single(t.0 * b[0].0, spec_grade_add(tg(t), tg(b[0]))),
            term_mul(t, b.drop_first()),
        )
    }
}

/// Canonical product of two canonical term lists.
pub open spec fn cmul(a: Seq<(int, nat, nat)>, b: Seq<(int, nat, nat)>) -> Seq<(int, nat, nat)>
    decreases a.len(),
{
    if a.len() == 0 {
        Seq::empty()
    } else {
        merge(term_mul(a[0], b), cmul(a.drop_first(), b))
    }
}

/// Every machine-range condition of the term product holds: coefficient
/// products stay in range, grade denominators stay within the grade bound,
/// and the intermediate merges fit.
pub open spec fn term_mul_fits(t: (int, nat, nat), b: Seq<(int, nat, nat)>) -> bool
    decreases b.len(),
{
    if b.len() == 0 {
        true
    } else {
        let c = t.0 * b[0].0;
        let g = spec_grade_add(tg(t), tg(b[0]));
        &&& -(i64::MAX as int) <= c <= i64::MAX as int
        &&& g.1 <= GRADE_DENOM_MAX
        &&& term_mul_fits(t, b.drop_first())
        &&& merge_fits(single(c, g), term_mul(t, b.drop_first()))
    }
}

/// Every machine-range condition of the full product holds.
pub open spec fn cmul_fits(a: Seq<(int, nat, nat)>, b: Seq<(int, nat, nat)>) -> bool
    decreases a.len(),
{
    if a.len() == 0 {
        true
    } else {
        &&& term_mul_fits(a[0], b)
        &&& cmul_fits(a.drop_first(), b)
        &&& merge_fits(term_mul(a[0], b), cmul(a.drop_first(), b))
    }
}

/// The sum grade of two reduced grades is a reduced grade.
pub proof fn lemma_grade_add_ok(x: (nat, nat), y: (nat, nat))
    requires
        grade_ok(x),
        grade_ok(y),
    ensures
        grade_ok(spec_grade_add(x, y)),
    decreases 0nat,
{
    let d = x.1 * y.1;
    assert(x.1 * y.1 > 0) by (nonlinear_arith)
        requires
            x.1 > 0,
            y.1 > 0,
    ;
    let n = (x.0 * y.1 + y.0 * x.1) % d;
    vstd::arithmetic::div_mod::lemma_mod_bound((x.0 * y.1 + y.0 * x.1) as int, d as int);
    crate::prufer_group::lemma_reduce_props(n, d);
}

/// A single term is canonical whenever its grade is reduced.
pub proof fn lemma_single_wf(c: int, g: (nat, nat))
    requires
        grade_ok(g),
    ensures
        cyc_wf(single(c, g)),
{
}

/// The product of a reduced term with a canonical list is canonical.
pub proof fn lemma_term_mul_wf(t: (int, nat, nat), b: Seq<(int, nat, nat)>)
    requires
        grade_ok(tg(t)),
        cyc_wf(b),
    ensures
        cyc_wf(term_mul(t, b)),
    decreases b.len(),
{
    if b.len() > 0 {
        lemma_wf_above(b);
        lemma_term_mul_wf(t, b.drop_first());
        lemma_grade_add_ok(tg(t), tg(b[0]));
        lemma_single_wf(t.0 * b[0].0, spec_grade_add(tg(t), tg(b[0])));
        lemma_merge_wf(single(t.0 * b[0].0, spec_grade_add(tg(t), tg(b[0]))), term_mul(t, b.drop_first()));
    }
}

/// The product of canonical lists is canonical.
pub proof fn lemma_cmul_wf(a: Seq<(int, nat, nat)>, b: Seq<(int, nat, nat)>)
    requires
        cyc_wf(a),
        cyc_wf(b),
    ensures
        cyc_wf(cmul(a, b)),
    decreases a.len(),
{
    if a.len() > 0 {
        lemma_wf_above(a);
        lemma_cmul_wf(a.drop_first(), b);
        lemma_term_mul_wf(a[0], b);
        lemma_merge_wf(term_mul(a[0], b), cmul(a.drop_first(), b));
    }
}

/// Multiplies the single stored term `(c, g)` with the suffix `b[j..]`.
fn term_mul_rec(c: i64, g: PruferGroup, b: &Vec<(i64, PruferGroup)>, j: usize) -> (r: Result<
    Vec<(i64, PruferGroup)>,
    CoxeterError,
>)
    requires
        g.wf(),
        c != i64::MIN,
        stored_ok(b@),
        j <= b.len(),
    ensures
        r is Err ==> r->Err_0 == CoxeterError::Overflow,
        r is Ok <==> term_mul_fits((c as int, g.numer as nat, g.denom as nat), tv(b@).skip(j as int)),
        r is Ok ==> tv(r->Ok_0@) == term_mul((c as int, g.numer as nat, g.denom as nat), tv(b@).skip(j as int))
            && stored_ok(r->Ok_0@),
    decreases b.len() - j,
{
    let ghost t = (c as int, g.numer as nat, g.denom as nat);
    let ghost bv = tv(b@).skip(j as int);
    if j == b.len() {
        let r: Vec<(i64, PruferGroup)> = Vec::new();
        proof {
            assert(tv(r@) =~= Seq::<(int, nat, nat)>::empty());
        }
        Ok(r)
    } else {
        let (cb, gb) = b[j];
        proof {
            assert(bv[0] == (cb as int, gb.numer as nat, gb.denom as nat));
            assert(bv.drop_first() =~= tv(b@).skip(j + 1));
        }
        let prod: i128 = crate::arith::mul_i64_to_i128(c, cb);
        if prod > i64::MAX as i128 || prod < -(i64::MAX as i128) {
            proof {
                assert(!term_mul_fits(t, bv));
            }
            return Err(CoxeterError::Overflow);
        }
        let gs = match g.add(gb) {
            Ok(gs) => gs,
            Err(e) => {
                proof {
                    assert(spec_grade_add(tg(t), tg(bv[0])).1 > GRADE_DENOM_MAX);
                    assert(!term_mul_fits(t, bv));
                }
                return Err(e);
            },
        };
        let mut head: Vec<(i64, PruferGroup)> = Vec::new();
        if prod != 0 {
            head.push((prod as i64, gs));
        }
        proof {
            assert(tv(head@) =~= single(t.0 * bv[0].0, spec_grade_add(tg(t), tg(bv[0]))));
        }
        match term_mul_rec(c, g, b, j + 1) {
            Ok(rest) => {
                proof {
                    assert(tv(head@).skip(0) =~= tv(head@));
                    assert(tv(rest@).skip(0) =~= tv(rest@));
                }
                match merge_rec(&head, &rest, 0, 0) {
                    Ok(out) => {
                        proof {
                            assert(term_mul_fits(t, bv));
                        }
                        Ok(out)
                    },
                    Err(e) => {
                        proof {
                            assert(!merge_fits(single(t.0 * bv[0].0, spec_grade_add(tg(t), tg(bv[0]))),
                                term_mul(t, bv.drop_first())));
                            assert(!term_mul_fits(t, bv));
                        }
                        Err(e)
                    },
                }
            },
            Err(e) => {
                proof {
                    assert(!term_mul_fits(t, bv.drop_first()));
                    assert(!term_mul_fits(t, bv));
                }
                Err(e)
            },
        }
    }
}

/// Multiplies the suffix `a[i..]` with the whole list `b`.
fn mul_rec(a: &Vec<(i64, PruferGroup)>, b: &Vec<(i64, PruferGroup)>, i: usize) -> (r: Result<
    Vec<(i64, PruferGroup)>,
    CoxeterError,
>)
    requires
        stored_ok(a@),
        stored_ok(b@),
        i <= a.len(),
    ensures
        r is Err ==> r->Err_0 == CoxeterError::Overflow,
        r is Ok <==> cmul_fits(tv(a@).skip(i as int), tv(b@)),
        r is Ok ==> tv(r->Ok_0@) == cmul(tv(a@).skip(i as int), tv(b@)) && stored_ok(r->Ok_0@),
    decreases a.len() - i,
{
    let ghost av = tv(a@).skip(i as int);
    if i == a.len() {
        let r: Vec<(i64, PruferGroup)> = Vec::new();
        proof {
            assert(tv(r@) =~= Seq::<(int, nat, nat)>::empty());
        }
        Ok(r)
    } else {
        let (ca, ga) = a[i];
        proof {
            assert(av[0] == (ca as int, ga.numer as nat, ga.denom as nat));
            assert(av.drop_first() =~= tv(a@).skip(i + 1));
        }
        proof {
            assert(tv(b@).skip(0) =~= tv(b@));
        }
        match term_mul_rec(ca, ga, b, 0) {
            Ok(tm) => {
                match mul_rec(a, b, i + 1) {
                    Ok(rest) => {
                        proof {
                            assert(tv(tm@).skip(0) =~= tv(tm@));
                            assert(tv(rest@).skip(0) =~= tv(rest@));
                        }
                        match merge_rec(&tm, &rest, 0, 0) {
                            Ok(out) => {
                                proof {
                                    assert(cmul_fits(av, tv(b@)));
                                }
                                Ok(out)
                            },
                            Err(e) => {
                                proof {
                                    assert(!merge_fits(term_mul(av[0], tv(b@)), cmul(
                                        av.drop_first(),
                                        tv(b@),
                                    )));
                                    assert(!cmul_fits(av, tv(b@)));
                                }
                                Err(e)
                            },
                        }
                    },
                    Err(e) => {
                        proof {
                            assert(!cmul_fits(av.drop_first(), tv(b@)));
                            assert(!cmul_fits(av, tv(b@)));
                        }
                        Err(e)
                    },
                }
            },
            Err(e) => {
                proof {
                    assert(!term_mul_fits(av[0], tv(b@)));
                    assert(!cmul_fits(av, tv(b@)));
                }
                Err(e)
            },
        }
    }
}

impl GradedAlgebra<i64, PruferGroup> {
    /// Canonical product: coefficients multiply, grades add modulo 1, and
    /// the result is re-merged into canonical form. Succeeds exactly when
    /// every coefficient product, grade denominator, and intermediate
    /// merge stays within the machine range.
    pub fn mul(&self, rhs: &Self) -> (r: Result<Self, CoxeterError>)
        requires
            self.wf(),
            rhs.wf(),
        ensures
            r is Err ==> r->Err_0 == CoxeterError::Overflow,
            r is Ok <==> cmul_fits(self@, rhs@),
            r is Ok ==> r->Ok_0.wf() && r->Ok_0@ == cmul(self@, rhs@),
    {
        proof {
            assert(tv(self.terms@).skip(0) =~= self@);
            assert(tv(rhs.terms@) =~= rhs@);
        }
        match mul_rec(&self.terms, &rhs.terms, 0) {
            Ok(terms) => {
                let r = GradedAlgebra { terms };
                proof {
                    lemma_cmul_wf(self@, rhs@);
                }
                Ok(r)
            },
            Err(e) => Err(e),
        }
    }
}

/// Least common multiple.
pub open spec fn spec_lcm(a: nat, b: nat) -> nat
    recommends
        a > 0,
        b > 0,
{
    ((a * b) / crate::arith::spec_gcd(a, b)) as nat
}

/// Least common multiple of all grade denominators in the list.
pub open spec fn denom_lcm(s: Seq<(int, nat, nat)>) -> nat
    decreases s.len(),
{
    if s.len() == 0 {
        1
    } else {
        spec_lcm(s[0].2, denom_lcm(s.drop_first()))
    }
}

/// Removes every factor `p` from `n`.
pub open spec fn strip(n: nat, p: nat) -> nat
    decreases n,
    via strip_dec
{
    if 2 <= p && 0 < n && n % p == 0 {
        strip(n / p, p)
    } else {
        n
    }
}

#[via_fn]
proof fn strip_dec(n: nat, p: nat) {
    if 2 <= p && 0 < n && n % p == 0 {
        vstd::arithmetic::div_mod::lemma_div_decreases(n as int, p as int);
    }
}

/// Stripping never grows a number.
pub proof fn lemma_strip_le(n: nat, p: nat)
    ensures
        strip(n, p) <= n,
    decreases n,
{
    if 2 <= p && 0 < n && n % p == 0 {
        vstd::arithmetic::div_mod::lemma_div_decreases(n as int, p as int);
        lemma_strip_le(n / p, p);
    }
}

/// The distinct prime factors of `n`, found by trial division from `p` up.
pub open spec fn spec_primes_of(n: nat, p: nat) -> Seq<nat>
    decreases n, n + 2 - p,
    via primes_dec
{
    if n <= 1 || p < 2 || p > n {
        Seq::empty()
    } else if n % p == 0 {
        seq![p] + spec_primes_of(strip(n, p), p + 1)
    } else {
        spec_primes_of(n, p + 1)
    }
}

#[via_fn]
proof fn primes_dec(n: nat, p: nat) {
    if n <= 1 || p < 2 || p > n {
    } else if n % p == 0 {
        vstd::arithmetic::div_mod::lemma_div_decreases(n as int, p as int);
        lemma_strip_le(n / p, p);
    } else {
        vstd::arithmetic::div_mod::lemma_mod_self_0(p as int);
    }
}

/// The balancing element for `p`: coefficient `1 - p` at grade zero and
/// coefficient one at each grade `i / p`. Multiplying by it annihilates
/// exactly the combinations whose Galois trace vanishes at level `p`.
pub open spec fn balancer_term_seq(p: nat) -> Seq<(int, nat, nat)>
    recommends
        p >= 2,
{
    Seq::new(
        p,
        |i: int|
            (
                if i == 0 {
                    1 - p
                } else {
                    1int
                },
                spec_reduce(i as nat, p).0,
                spec_reduce(i as nat, p).1,
            ),
    )
}

/// The product of the balancing elements of all primes in the list.
pub open spec fn spec_balancer(ps: Seq<nat>) -> Seq<(int, nat, nat)>
    decreases ps.len(),
{
    if ps.len() == 0 {
        one_terms()
    } else {
        cmul(balancer_term_seq(ps[0]), spec_balancer(ps.drop_first()))
    }
}

/// The exact zero test: the element is zero precisely when multiplying by
/// the balancer of its level collapses the formal sum to the empty list.
pub open spec fn spec_is_zero(x: Seq<(int, nat, nat)>) -> bool {
    cmul(x, spec_balancer(spec_primes_of(denom_lcm(x), 2))).len() == 0
}

/// Operational equality: the difference tests as zero.
pub open spec fn spec_eq(x: Seq<(int, nat, nat)>, y: Seq<(int, nat, nat)>) -> bool {
    spec_is_zero(merge(x, cneg(y)))
}

/// Every least common multiple along the denominator fold stays within
/// the grade bound.
pub open spec fn denoms_lcm_fits(s: Seq<(int, nat, nat)>) -> bool
    decreases s.len(),
{
    if s.len() == 0 {
        true
    } else {
        denoms_lcm_fits(s.drop_first()) && spec_lcm(s[0].2, denom_lcm(s.drop_first()))
            <= GRADE_DENOM_MAX
    }
}

/// Every machine-range condition of the balancer product holds.
pub open spec fn bal_fits(ps: Seq<nat>) -> bool
    decreases ps.len(),
{
    if ps.len() == 0 {
        true
    } else {
        bal_fits(ps.drop_first()) && cmul_fits(balancer_term_seq(ps[0]), spec_balancer(ps.drop_first()))
    }
}

/// Every machine-range condition of the exact zero test holds: the level
/// fits the grade bound, the balancer product fits, and so does the final
/// multiplication.
pub open spec fn zero_test_fits(x: Seq<(int, nat, nat)>) -> bool {
    &&& denoms_lcm_fits(x)
    &&& bal_fits(spec_primes_of(denom_lcm(x), 2))
    &&& cmul_fits(x, spec_balancer(spec_primes_of(denom_lcm(x), 2)))
}

/// Every machine-range condition of the operational equality test holds.
pub open spec fn eq_test_fits(x: Seq<(int, nat, nat)>, y: Seq<(int, nat, nat)>) -> bool {
    merge_fits(x, cneg(y)) && zero_test_fits(merge(x, cneg(y)))
}

/// Fractions with a common denominator are ordered by their numerators.
pub proof fn lemma_reduce_order_pub(i: nat, j: nat, p: nat)
    requires
        i < j < p,
    ensures
        grade_lt(spec_reduce(i, p), spec_reduce(j, p)),
{
    crate::prufer_group::lemma_reduce_props(i, p);
    crate::prufer_group::lemma_reduce_props(j, p);
    let ri = spec_reduce(i, p);
    let rj = spec_reduce(j, p);
    assert(ri.0 * rj.1 < rj.0 * ri.1) by (nonlinear_arith)
        requires
            ri.0 * p == i * ri.1,
            rj.0 * p == j * rj.1,
            i < j,
            ri.1 > 0,
            rj.1 > 0,
            p > 0,
    ;
}

/// Least common multiple; fails exactly when it leaves the grade range.
fn lcm_u64(a: u64, b: u64) -> (r: Result<u64, CoxeterError>)
    requires
        0 < a <= GRADE_DENOM_MAX,
        0 < b <= GRADE_DENOM_MAX,
    ensures
        r is Err ==> r->Err_0 == CoxeterError::Overflow,
        r is Ok <==> spec_lcm(a as nat, b as nat) <= GRADE_DENOM_MAX,
        r is Ok ==> 0 < r->Ok_0 && r->Ok_0 == spec_lcm(a as nat, b as nat),
{
    let g = crate::arith::gcd_u64(a, b);
    proof {
        crate::arith::lemma_gcd_pos(a as nat, b as nat);
        crate::arith::lemma_gcd_divides(a as nat, b as nat);
        let ka = choose|k: nat| a as nat == #[trigger] ((g as nat) * k);
        crate::arith::lemma_div_exact(a as nat, g as nat, ka);
        assert((a as nat) * (b as nat) == (g as nat) * (ka * (b as nat))) by (nonlinear_arith)
            requires
                a as nat == (g as nat) * ka,
        ;
        crate::arith::lemma_div_exact((a as nat) * (b as nat), g as nat, ka * (b as nat));
        assert(ka > 0 && ka * (b as nat) > 0) by (nonlinear_arith)
            requires
                a as nat == (g as nat) * ka,
                a > 0,
                b > 0,
                g > 0,
        ;
    }
    let q = a / g;
    let l: u128 = crate::arith::mul_u64_to_u128(q, b);
    if l <= GRADE_DENOM_MAX as u128 {
        Ok(l as u64)
    } else {
        Err(CoxeterError::Overflow)
    }
}

/// Least common multiple of the grade denominators of `v[k..]`.
fn denoms_lcm_rec(v: &Vec<(i64, PruferGroup)>, k: usize) -> (r: Result<u64, CoxeterError>)
    requires
        stored_ok(v@),
        k <= v.len(),
    ensures
        r is Err ==> r->Err_0 == CoxeterError::Overflow,
        r is Ok <==> denoms_lcm_fits(tv(v@).skip(k as int)),
        r is Ok ==> 0 < r->Ok_0 <= GRADE_DENOM_MAX && r->Ok_0 as nat == denom_lcm(
            tv(v@).skip(k as int),
        ),
    decreases v.len() - k,
{
    let ghost sv = tv(v@).skip(k as int);
    if k == v.len() {
        proof {
            assert(sv.len() == 0);
        }
        Ok(1)
    } else {
        proof {
            assert(sv[0] == (v@[k as int].0 as int, v@[k as int].1.numer as nat,
                v@[k as int].1.denom as nat));
            assert(sv.drop_first() =~= tv(v@).skip(k + 1));
        }
        match denoms_lcm_rec(v, k + 1) {
            Ok(rest) => {
                let d = v[k].1.denom;
                lcm_u64(d, rest)
            },
            Err(e) => Err(e),
        }
    }
}

/// Removes every factor `p` from `n`.
fn strip_u64(n: u64, p: u64) -> (r: u64)
    requires
        p >= 2,
    ensures
        r as nat == strip(n as nat, p as nat),
    decreases n,
{
    if n > 0 && n % p == 0 {
        proof {
            vstd::arithmetic::div_mod::lemma_div_decreases(n as int, p as int);
        }
        strip_u64(n / p, p)
    } else {
        n
    }
}

/// The distinct prime factors of `n`, by trial division from `p` up.
fn primes_of_u64(n: u64, p: u64) -> (r: Vec<u64>)
    requires
        p >= 2,
        n <= GRADE_DENOM_MAX,
    ensures
        r@.map_values(|x: u64| x as nat) == spec_primes_of(n as nat, p as nat),
        forall|i: int| 0 <= i < r@.len() ==> 2 <= #[trigger] r@[i] <= n,
    decreases n, n + 2 - p,
{
    if n <= 1 || p > n {
        let r: Vec<u64> = Vec::new();
        proof {
            assert(r@.map_values(|x: u64| x as nat) =~= spec_primes_of(n as nat, p as nat));
        }
        r
    } else if n % p == 0 {
        let m = strip_u64(n, p);
        proof {
            vstd::arithmetic::div_mod::lemma_div_decreases(n as int, p as int);
            lemma_strip_le((n / p) as nat, p as nat);
        }
        let mut r = primes_of_u64(m, p + 1);
        r.insert(0, p);
        proof {
            assert(r@.map_values(|x: u64| x as nat) =~= seq![p as nat] + spec_primes_of(
                strip(n as nat, p as nat),
                p as nat + 1,
            ));
            assert(forall|i: int|
                0 <= i < r@.len() - 1 ==> #[trigger] r@[i + 1] <= m <= n);
            assert(forall|i: int|
                1 <= i < r@.len() ==> 2 <= #[trigger] r@[i] <= n);
        }
        r
    } else {
        primes_of_u64(n, p + 1)
    }
}

/// Builds the stored balancing element for `p`.
fn balancer_terms(p: u64) -> (r: Vec<(i64, PruferGroup)>)
    requires
        2 <= p <= GRADE_DENOM_MAX,
    ensures
        tv(r@) == balancer_term_seq(p as nat),
        stored_ok(r@),
        cyc_wf(tv(r@)),
{
    let mut terms: Vec<(i64, PruferGroup)> = Vec::new();
    let mut i: u64 = 0;
    while i < p
        invariant
            2 <= p <= GRADE_DENOM_MAX,
            i <= p,
            terms@.len() == i,
            forall|m: int|
                0 <= m < i ==> #[trigger] terms@[m] == (
                    if m == 0 {
                        (1 - p as int) as i64
                    } else {
                        1i64
                    },
                    spec_grade_of(m as nat, p as nat),
                ),
            forall|m: int| 0 <= m < i ==> (#[trigger] terms@[m]).1.wf(),
        decreases p - i,
    {
        let c: i64 = if i == 0 {
            1 - (p as i64)
        } else {
            1
        };
        let g = PruferGroup::new(i, p);
        proof {
            vstd::arithmetic::div_mod::lemma_small_mod(i as nat, p as nat);
            assert(g@ == spec_reduce(i as nat, p as nat));
            assert(g == spec_grade_of(i as nat, p as nat)) by {
                assert(g@.0 == g.numer as nat && g@.1 == g.denom as nat);
            }
        }
        terms.push((c, g));
        i += 1;
    }
    proof {
        assert forall|m: int| 0 <= m < p implies tv(terms@)[m] == balancer_term_seq(p as nat)[m] by {
            crate::prufer_group::lemma_reduce_props(m as nat, p as nat);
            assert(terms@[m].1@ == spec_reduce(m as nat, p as nat));
        }
        assert(tv(terms@) =~= balancer_term_seq(p as nat));
        assert(terms_ok(tv(terms@))) by {
            assert forall|m: int| 0 <= m < p implies (#[trigger] tv(terms@)[m]).0 != 0
                && grade_ok(tg(tv(terms@)[m])) by {
                crate::prufer_group::lemma_reduce_props(m as nat, p as nat);
            }
        }
        assert forall|m: int| 0 <= m && m + 1 < terms@.len() implies grade_lt(
            tg(#[trigger] tv(terms@)[m]),
            tg(tv(terms@)[m + 1]),
        ) by {
            lemma_reduce_order_pub(m as nat, (m + 1) as nat, p as nat);
        }
    }
    terms
}

/// The stored grade whose view is `spec_reduce(n, d)`.
pub open spec fn spec_grade_of(n: nat, d: nat) -> PruferGroup {
    PruferGroup {
        numer: spec_reduce(n, d).0 as u64,
        denom: spec_reduce(n, d).1 as u64,
    }
}

/// The product of the balancing elements of `ps[k..]`.
fn balancer_product(ps: &Vec<u64>, k: usize) -> (r: Result<
    GradedAlgebra<i64, PruferGroup>,
    CoxeterError,
>)
    requires
        k <= ps.len(),
        forall|i: int| 0 <= i < ps@.len() ==> 2 <= #[trigger] ps@[i] <= GRADE_DENOM_MAX,
    ensures
        r is Err ==> r->Err_0 == CoxeterError::Overflow,
        r is Ok <==> bal_fits(ps@.map_values(|x: u64| x as nat).skip(k as int)),
        r is Ok ==> r->Ok_0.wf() && r->Ok_0@ == spec_balancer(
            ps@.map_values(|x: u64| x as nat).skip(k as int),
        ),
    decreases ps.len() - k,
{
    let ghost pv = ps@.map_values(|x: u64| x as nat).skip(k as int);
    if k == ps.len() {
        proof {
            assert(pv.len() == 0);
        }
        Ok(GradedAlgebra::one())
    } else {
        proof {
            assert(pv[0] == ps@[k as int] as nat);
            assert(pv.drop_first() =~= ps@.map_values(|x: u64| x as nat).skip(k + 1));
        }
        let b = balancer_terms(ps[k]);
        let bc = GradedAlgebra::from_terms(b);
        match balancer_product(ps, k + 1) {
            Ok(rest) => bc.mul(&rest),
            Err(e) => Err(e),
        }
    }
}

impl GradedAlgebra<i64, PruferGroup> {
    /// The exact zero test by Galois-orbit balancing: multiply by the
    /// balancer of the element's level and check that the formal sum
    /// collapses to nothing. Never wrong when it answers; fails only when
    /// machine arithmetic would overflow along the way.
    pub fn is_zero(&self) -> (r: Result<bool, CoxeterError>)
        requires
            self.wf(),
        ensures
            r is Err ==> r->Err_0 == CoxeterError::Overflow,
            r is Ok <==> zero_test_fits(self@),
            r is Ok ==> r->Ok_0 == spec_is_zero(self@),
    {
        proof {
            assert(tv(self.terms@).skip(0) =~= self@);
        }
        let n = match denoms_lcm_rec(&self.terms, 0) {
            Ok(n) => n,
            Err(e) => {
                return Err(e);
            },
        };
        let ps = primes_of_u64(n, 2);
        proof {
            assert(ps@.map_values(|x: u64| x as nat).skip(0) =~= spec_primes_of(n as nat, 2));
        }
        let bal = match balancer_product(&ps, 0) {
            Ok(b) => b,
            Err(e) => {
                return Err(e);
            },
        };
        match self.mul(&bal) {
            Ok(prod) => Ok(prod.is_structural_zero()),
            Err(e) => Err(e),
        }
    }

    /// The exact unit test: `self - 1` tests as zero.
    pub fn is_one(&self) -> (r: Result<bool, CoxeterError>)
        requires
            self.wf(),
        ensures
            r is Err ==> r->Err_0 == CoxeterError::Overflow,
            r is Ok <==> eq_test_fits(self@, one_terms()),
            r is Ok ==> r->Ok_0 == spec_eq(self@, one_terms()),
    {
        let o = Self::one();
        match self.sub(&o) {
            Ok(d) => d.is_zero(),
            Err(e) => Err(e),
        }
    }

    /// Operational equality: the difference tests as zero.
    pub fn eq_el(&self, rhs: &Self) -> (r: Result<bool, CoxeterError>)
        requires
            self.wf(),
            rhs.wf(),
        ensures
            r is Err ==> r->Err_0 == CoxeterError::Overflow,
            r is Ok <==> eq_test_fits(self@, rhs@),
            r is Ok ==> r->Ok_0 == spec_eq(self@, rhs@),
    {
        match self.sub(rhs) {
            Ok(d) => d.is_zero(),
            Err(e) => Err(e),
        }
    }

    /// Canonical sum of a list of elements.
    pub fn sum(xs: Vec<Self>) -> (r: Result<Self, CoxeterError>)
        requires
            forall|i: int| 0 <= i < xs@.len() ==> (#[trigger] xs@[i]).wf(),
        ensures
            r is Err ==> r->Err_0 == CoxeterError::Overflow,
            sum_fits(xs@.map_values(|x: Self| x@)) ==> r is Ok,
            r is Ok ==> r->Ok_0.wf() && r->Ok_0@ == spec_sum(xs@.map_values(|x: Self| x@)),
    {
        let ghost xv = xs@.map_values(|x: Self| x@);
        let mut acc = Self::zero();
        let mut k: usize = 0;
        proof {
            assert(spec_sum(xv.take(0)) =~= Seq::<(int, nat, nat)>::empty());
        }
        while k < xs.len()
            invariant
                forall|i: int| 0 <= i < xs@.len() ==> (#[trigger] xs@[i]).wf(),
                k <= xs.len(),
                acc.wf(),
                xv == xs@.map_values(|x: Self| x@),
                acc@ == spec_sum(xv.take(k as int)),
            decreases xs.len() - k,
        {
            let next = match acc.add(&xs[k]) {
                Ok(v) => v,
                Err(e) => {
                    proof {
                        if sum_fits(xv) {
                            lemma_sum_fits_take(xv, k + 1);
                            assert(xv.take(k + 1).drop_last() =~= xv.take(k as int));
                            assert(xv.take(k + 1).last() == xs@[k as int]@);
                        }
                    }
                    return Err(e);
                },
            };
            proof {
                assert(xv.take(k + 1).drop_last() =~= xv.take(k as int));
                assert(xv.take(k + 1).last() == xs@[k as int]@);
            }
            acc = next;
            k += 1;
        }
        proof {
            assert(xv.take(xs@.len() as int) =~= xv);
        }
        Ok(acc)
    }

    /// Canonical product of a list of elements.
    pub fn prod(xs: Vec<Self>) -> (r: Result<Self, CoxeterError>)
        requires
            forall|i: int| 0 <= i < xs@.len() ==> (#[trigger] xs@[i]).wf(),
        ensures
            r is Err ==> r->Err_0 == CoxeterError::Overflow,
            prod_fits(xs@.map_values(|x: Self| x@)) ==> r is Ok,
            r is Ok ==> r->Ok_0.wf() && r->Ok_0@ == spec_prod(xs@.map_values(|x: Self| x@)),
    {
        let ghost xv = xs@.map_values(|x: Self| x@);
        let mut acc = Self::one();
        let mut k: usize = 0;
        proof {
            assert(spec_prod(xv.take(0)) =~= one_terms());
        }
        while k < xs.len()
            invariant
                forall|i: int| 0 <= i < xs@.len() ==> (#[trigger] xs@[i]).wf(),
                k <= xs.len(),
                acc.wf(),
                xv == xs@.map_values(|x: Self| x@),
                acc@ == spec_prod(xv.take(k as int)),
            decreases xs.len() - k,
        {
            let next = match acc.mul(&xs[k]) {
                Ok(v) => v,
                Err(e) => {
                    proof {
                        if prod_fits(xv) {
                            lemma_prod_fits_take(xv, k + 1);
                            assert(xv.take(k + 1).drop_last() =~= xv.take(k as int));
                            assert(xv.take(k + 1).last() == xs@[k as int]@);
                        }
                    }
                    return Err(e);
                },
            };
            proof {
                assert(xv.take(k + 1).drop_last() =~= xv.take(k as int));
                assert(xv.take(k + 1).last() == xs@[k as int]@);
            }
            acc = next;
            k += 1;
        }
        proof {
            assert(xv.take(xs@.len() as int) =~= xv);
        }
        Ok(acc)
    }
}

/// Every coefficient sum along the left fold of sums stays in range.
pub open spec fn sum_fits(xs: Seq<Seq<(int, nat, nat)>>) -> bool
    decreases xs.len(),
{
    if xs.len() == 0 {
        true
    } else {
        sum_fits(xs.drop_last()) && merge_fits(spec_sum(xs.drop_last()), xs.last())
    }
}

/// Every machine-range condition along the left fold of products holds.
pub open spec fn prod_fits(xs: Seq<Seq<(int, nat, nat)>>) -> bool
    decreases xs.len(),
{
    if xs.len() == 0 {
        true
    } else {
        prod_fits(xs.drop_last()) && cmul_fits(spec_prod(xs.drop_last()), xs.last())
    }
}

/// A fitting fold fits on every prefix.
pub proof fn lemma_sum_fits_take(xs: Seq<Seq<(int, nat, nat)>>, k: int)
    requires
        sum_fits(xs),
        0 <= k <= xs.len(),
    ensures
        sum_fits(xs.take(k)),
    decreases xs.len() - k,
{
    if k == xs.len() {
        assert(xs.take(k) =~= xs);
    } else {
        lemma_sum_fits_take(xs, k + 1);
        assert(xs.take(k + 1).drop_last() =~= xs.take(k));
    }
}

/// A fitting product fold fits on every prefix.
pub proof fn lemma_prod_fits_take(xs: Seq<Seq<(int, nat, nat)>>, k: int)
    requires
        prod_fits(xs),
        0 <= k <= xs.len(),
    ensures
        prod_fits(xs.take(k)),
    decreases xs.len() - k,
{
    if k == xs.len() {
        assert(xs.take(k) =~= xs);
    } else {
        lemma_prod_fits_take(xs, k + 1);
        assert(xs.take(k + 1).drop_last() =~= xs.take(k));
    }
}

/// Left fold of canonical sums, starting from the empty sum.
pub open spec fn spec_sum(xs: Seq<Seq<(int, nat, nat)>>) -> Seq<(int, nat, nat)>
    decreases xs.len(),
{
    if xs.len() == 0 {
        Seq::empty()
    } else {
        merge(spec_sum(xs.drop_last()), xs.last())
    }
}

/// Left fold of canonical products, starting from one.
pub open spec fn spec_prod(xs: Seq<Seq<(int, nat, nat)>>) -> Seq<(int, nat, nat)>
    decreases xs.len(),
{
    if xs.len() == 0 {
        one_terms()
    } else {
        cmul(spec_prod(xs.drop_last()), xs.last())
    }
}

/// The cyclotomic number ring: a descriptor type in the ring-object style,
/// whose element type is `Cyclotomic`.
#[derive(Clone, Copy, Debug)]
pub struct CyclotomicRingBase;

impl CyclotomicRingBase {
    pub fn new() -> (r: Self)
        ensures
            r == (CyclotomicRingBase {}),
    {
        CyclotomicRingBase {}
    }

    /// The root of unity `exp(2*pi*i*exponent/order)`.
    pub fn root_of_unity(&self, order: u64, exponent: u64) -> (r: Cyclotomic)
        requires
            0 < order <= GRADE_DENOM_MAX,
        ensures
            r.wf(),
            r@ == root_terms(order as nat, exponent as nat),
    {
        Cyclotomic::root_of_unity(order, exponent)
    }

    /// Canonical negation of an element.
    pub fn negate(&self, x: &Cyclotomic) -> (r: Cyclotomic)
        requires
            x.wf(),
        ensures
            r.wf(),
            r@ == cneg(x@),
    {
        x.neg()
    }

    /// Canonical sum of a list of elements.
    pub fn sum(&self, xs: Vec<Cyclotomic>) -> (r: Result<Cyclotomic, CoxeterError>)
        requires
            forall|i: int| 0 <= i < xs@.len() ==> (#[trigger] xs@[i]).wf(),
        ensures
            r is Err ==> r->Err_0 == CoxeterError::Overflow,
            sum_fits(xs@.map_values(|x: Cyclotomic| x@)) ==> r is Ok,
            r is Ok ==> r->Ok_0.wf() && r->Ok_0@ == spec_sum(xs@.map_values(|x: Cyclotomic| x@)),
    {
        Cyclotomic::sum(xs)
    }

    /// Canonical product of a list of elements.
    pub fn prod(&self, xs: Vec<Cyclotomic>) -> (r: Result<Cyclotomic, CoxeterError>)
        requires
            forall|i: int| 0 <= i < xs@.len() ==> (#[trigger] xs@[i]).wf(),
        ensures
            r is Err ==> r->Err_0 == CoxeterError::Overflow,
            prod_fits(xs@.map_values(|x: Cyclotomic| x@)) ==> r is Ok,
            r is Ok ==> r->Ok_0.wf() && r->Ok_0@ == spec_prod(xs@.map_values(|x: Cyclotomic| x@)),
    {
        Cyclotomic::prod(xs)
    }

    /// The exact zero test of an element.
    pub fn is_zero(&self, x: &Cyclotomic) -> (r: Result<bool, CoxeterError>)
        requires
            x.wf(),
        ensures
            r is Err ==> r->Err_0 == CoxeterError::Overflow,
            r is Ok <==> zero_test_fits(x@),
            r is Ok ==> r->Ok_0 == spec_is_zero(x@),
    {
        x.is_zero()
    }
}

/// Decides well-formedness of a stored cyclotomic number at run time.
pub fn exec_wf(x: &Cyclotomic) -> (r: bool)
    ensures
        r == x.wf(),
{
    let n = x.terms.len();
    let mut k: usize = 0;
    let mut good: bool = true;
    while k < n
        invariant
            n == x.terms@.len(),
            k <= n,
            good ==> forall|m: int|
                0 <= m < k ==> (#[trigger] x.terms@[m]).1.wf() && x.terms@[m].0 != i64::MIN
                    && x.terms@[m].0 != 0,
            good ==> forall|m: int|
                0 <= m && m + 1 <= k && m + 1 < n ==> grade_lt(tg(#[trigger] x@[m]), tg(x@[m + 1])),
            !good ==> !x.wf(),
        decreases n - k,
    {
        let (c, g) = x.terms[k];
        if c == 0 || c == i64::MIN || g.denom == 0 || g.denom > GRADE_DENOM_MAX || g.numer
            >= g.denom {
            proof {
                if x.wf() {
                    assert(x@[k as int] == (x.terms@[k as int].0 as int, x.terms@[k as int].1.numer
                        as nat, x.terms@[k as int].1.denom as nat));
                    assert(grade_ok(tg(x@[k as int])));
                }
            }
            good = false;
        } else {
            let gg = crate::arith::gcd_u64(g.numer, g.denom);
            if gg != 1 {
                proof {
                    if x.wf() {
                        assert(x@[k as int] == (x.terms@[k as int].0 as int, x.terms@[k as int].1.numer
                            as nat, x.terms@[k as int].1.denom as nat));
                        assert(grade_ok(tg(x@[k as int])));
                    }
                }
                good = false;
            } else if k + 1 < n {
                let (c2, g2) = x.terms[k + 1];
                if g2.denom > 0 && !(crate::arith::mul_u64_to_u128(g.numer, g2.denom)
                    < crate::arith::mul_u64_to_u128(g2.numer, g.denom)) {
                    proof {
                        if x.wf() {
                            assert(grade_lt(tg(x@[k as int]), tg(x@[k + 1])));
                        }
                    }
                    good = false;
                } else if g2.denom == 0 {
                    proof {
                        if x.wf() {
                            assert(grade_ok(tg(x@[k + 1])));
                        }
                    }
                    good = false;
                }
            }
        }
        if !good {
            proof {
                if x.wf() {
                    assert(x@[k as int] == (x.terms@[k as int].0 as int, x.terms@[k as int].1.numer
                        as nat, x.terms@[k as int].1.denom as nat));
                }
            }
            return false;
        }
        k += 1;
    }
    proof {
        if good {
            assert(stored_ok(x.terms@));
            assert(terms_ok(x@)) by {
                assert forall|m: int| 0 <= m < x@.len() implies (#[trigger] x@[m]).0 != 0
                    && grade_ok(tg(x@[m])) by {
                    assert(x@[m] == (x.terms@[m].0 as int, x.terms@[m].1.numer as nat, x.terms@[
                    m].1.denom as nat));
                    assert(x.terms@[m].1.wf());
                }
            }
            assert(terms_sorted(x@));
        }
    }
    good
}

/// Addition is commutative: the canonical sum does not depend on the
/// order of its two arguments.
pub proof fn lemma_add_comm(a: Seq<(int, nat, nat)>, b: Seq<(int, nat, nat)>)
    requires
        cyc_wf(a),
        cyc_wf(b),
    ensures
        merge(a, b) == merge(b, a),
    decreases a.len() + b.len(),
{
    if a.len() == 0 || b.len() == 0 {
    } else {
        lemma_wf_above(a);
        lemma_wf_above(b);
        if grade_lt(tg(a[0]), tg(b[0])) {
            lemma_add_comm(a.drop_first(), b);
        } else if grade_lt(tg(b[0]), tg(a[0])) {
            lemma_add_comm(a, b.drop_first());
        } else {
            lemma_grade_total(tg(a[0]), tg(b[0]));
            lemma_add_comm(a.drop_first(), b.drop_first());
            assert((a[0].1, a[0].2) == (b[0].1, b[0].2));
        }
    }
}

/// Zero is the additive identity: merging with the empty sum changes
/// nothing, on either side.
pub proof fn lemma_add_zero(a: Seq<(int, nat, nat)>)
    ensures
        merge(a, Seq::empty()) == a,
        merge(Seq::empty(), a) == a,
{
}

/// Negation cancels: the canonical sum of an element and its negation is
/// the empty sum, so the exact zero test accepts it.
pub proof fn lemma_add_neg(a: Seq<(int, nat, nat)>)
    requires
        cyc_wf(a),
    ensures
        merge(a, cneg(a)) == Seq::<(int, nat, nat)>::empty(),
        spec_is_zero(merge(a, cneg(a))),
    decreases a.len(),
{
    if a.len() == 0 {
        lemma_is_zero_empty();
    } else {
        lemma_wf_above(a);
        assert(cneg(a)[0] == (-a[0].0, a[0].1, a[0].2));
        assert(!grade_lt(tg(a[0]), tg(cneg(a)[0])));
        assert(!grade_lt(tg(cneg(a)[0]), tg(a[0])));
        assert(cneg(a).drop_first() =~= cneg(a.drop_first()));
        lemma_add_neg(a.drop_first());
        lemma_is_zero_empty();
    }
}

/// The empty sum is zero under the exact zero test.
pub proof fn lemma_is_zero_empty()
    ensures
        spec_is_zero(Seq::<(int, nat, nat)>::empty()),
{
    let e = Seq::<(int, nat, nat)>::empty();
    assert(cmul(e, spec_balancer(spec_primes_of(denom_lcm(e), 2))).len() == 0);
}

/// Adding the zero grade leaves a reduced grade unchanged.
pub proof fn lemma_grade_add_zero(g: (nat, nat))
    requires
        grade_ok(g),
    ensures
        spec_grade_add(g, (0, 1)) == g,
{
    let d = g.1 * 1;
    assert(d == g.1);
    assert(g.0 * 1 + 0 * g.1 == g.0) by (nonlinear_arith);
    vstd::arithmetic::div_mod::lemma_small_mod(g.0, g.1);
    assert(crate::arith::spec_gcd(g.0, g.1) == 1);
    assert(g.0 / 1 == g.0 && g.1 / 1 == g.1) by {
        vstd::arithmetic::div_mod::lemma_div_basics_1(g.0 as int);
        vstd::arithmetic::div_mod::lemma_div_basics_1(g.1 as int);
    }
}

/// One is the multiplicative identity: the canonical product with the
/// single unit term reproduces the element.
pub proof fn lemma_mul_one(a: Seq<(int, nat, nat)>)
    requires
        cyc_wf(a),
    ensures
        cmul(a, one_terms()) == a,
    decreases a.len(),
{
    if a.len() == 0 {
    } else {
        lemma_wf_above(a);
        lemma_mul_one(a.drop_first());
        let t = a[0];
        lemma_grade_add_zero(tg(t));
        assert(t.0 * 1int == t.0) by (nonlinear_arith);
        assert(one_terms().drop_first() =~= Seq::<(int, nat, nat)>::empty());
        assert(term_mul(t, one_terms().drop_first()) =~= Seq::<(int, nat, nat)>::empty());
        assert(tg(one_terms()[0]) == (0nat, 1nat));
        assert(spec_grade_add(tg(t), (0nat, 1nat)) == tg(t));
        assert(term_mul(t, one_terms()) == merge(
            single(t.0 * one_terms()[0].0, spec_grade_add(tg(t), tg(one_terms()[0]))),
            term_mul(t, one_terms().drop_first()),
        ));
        assert(single(t.0 * 1int, tg(t)) =~= single(t.0, tg(t)));
        assert(merge(single(t.0, tg(t)), Seq::<(int, nat, nat)>::empty()) == single(t.0, tg(t)));
        assert(term_mul(t, one_terms()) =~= single(t.0, tg(t)));
        assert(single(t.0, tg(t)) =~= seq![t]);
        let m = cmul(a.drop_first(), one_terms());
        assert(m == a.drop_first());
        if m.len() == 0 {
            assert(cmul(a, one_terms()) =~= a);
        } else {
            assert(grade_lt(tg(t), tg(m[0])));
            assert(merge(seq![t].drop_first(), m) =~= m);
            assert(cmul(a, one_terms()) == seq![t] + merge(seq![t].drop_first(), m));
            assert(seq![t] + m =~= a);
        }
    }
}

/// A list whose grades all lie strictly above `g` carries nothing at `g`.
pub proof fn lemma_coeff_above(g: (nat, nat), s: Seq<(int, nat, nat)>)
    requires
        all_above(g, s),
    ensures
        coeff_at(s, g) == 0,
    decreases s.len(),
{
    if s.len() > 0 {
        assert(grade_lt(g, tg(s[0])));
        assert(tg(s[0]) != g);
        assert(all_above(g, s.drop_first()));
        lemma_coeff_above(g, s.drop_first());
    }
}

/// The merge carries, at every grade, the sum of what its arguments carry.
pub proof fn lemma_merge_coeff(a: Seq<(int, nat, nat)>, b: Seq<(int, nat, nat)>, g: (nat, nat))
    requires
        cyc_wf(a),
        cyc_wf(b),
    ensures
        coeff_at(merge(a, b), g) == coeff_at(a, g) + coeff_at(b, g),
    decreases a.len() + b.len(),
{
    if a.len() == 0 || b.len() == 0 {
    } else {
        lemma_wf_above(a);
        lemma_wf_above(b);
        if grade_lt(tg(a[0]), tg(b[0])) {
            lemma_merge_coeff(a.drop_first(), b, g);
            let m = merge(a.drop_first(), b);
            assert(merge(a, b) == seq![a[0]] + m);
            assert((seq![a[0]] + m).drop_first() =~= m);
        } else if grade_lt(tg(b[0]), tg(a[0])) {
            lemma_merge_coeff(a, b.drop_first(), g);
            let m = merge(a, b.drop_first());
            assert(merge(a, b) == seq![b[0]] + m);
            assert((seq![b[0]] + m).drop_first() =~= m);
        } else {
            lemma_grade_total(tg(a[0]), tg(b[0]));
            lemma_merge_coeff(a.drop_first(), b.drop_first(), g);
            let c = a[0].0 + b[0].0;
            let m = merge(a.drop_first(), b.drop_first());
            if c != 0 {
                assert(merge(a, b) == seq![(c, a[0].1, a[0].2)] + m);
                assert((seq![(c, a[0].1, a[0].2)] + m).drop_first() =~= m);
                assert(tg((seq![(c, a[0].1, a[0].2)] + m)[0]) == tg(a[0]));
            }
        }
    }
}

/// Canonical forms are determined by their coefficients: two canonical
/// lists that agree at every grade are the same list.
pub proof fn lemma_canon_ext(s1: Seq<(int, nat, nat)>, s2: Seq<(int, nat, nat)>)
    requires
        cyc_wf(s1),
        cyc_wf(s2),
        forall|g: (nat, nat)| #[trigger] coeff_at(s1, g) == coeff_at(s2, g),
    ensures
        s1 == s2,
    decreases s1.len() + s2.len(),
{
    if s1.len() == 0 && s2.len() == 0 {
        assert(s1 =~= s2);
    } else if s1.len() == 0 {
        lemma_wf_above(s2);
        lemma_coeff_above(tg(s2[0]), s2.drop_first());
        assert(coeff_at(s2, tg(s2[0])) == s2[0].0);
        assert(coeff_at(s1, tg(s2[0])) == 0);
        assert(false);
    } else if s2.len() == 0 {
        lemma_wf_above(s1);
        lemma_coeff_above(tg(s1[0]), s1.drop_first());
        assert(coeff_at(s1, tg(s1[0])) == s1[0].0);
        assert(coeff_at(s2, tg(s1[0])) == 0);
        assert(false);
    } else {
        lemma_wf_above(s1);
        lemma_wf_above(s2);
        let h1 = tg(s1[0]);
        let h2 = tg(s2[0]);
        if grade_lt(h1, h2) {
            lemma_coeff_above(h1, s1.drop_first());
            assert(coeff_at(s1, h1) == s1[0].0);
            assert(all_above(h1, s2)) by {
                assert forall|i: int| 0 <= i < s2.len() implies grade_lt(
                    h1,
                    tg(#[trigger] s2[i]),
                ) by {
                    if i > 0 {
                        lemma_sorted_chain(s2, 0, i);
                        crate::prufer_group::lemma_grade_trans(h1, h2, tg(s2[i]));
                    }
                }
            }
            lemma_coeff_above(h1, s2);
            assert(false);
        } else if grade_lt(h2, h1) {
            lemma_coeff_above(h2, s2.drop_first());
            assert(coeff_at(s2, h2) == s2[0].0);
            assert(all_above(h2, s1)) by {
                assert forall|i: int| 0 <= i < s1.len() implies grade_lt(
                    h2,
                    tg(#[trigger] s1[i]),
                ) by {
                    if i > 0 {
                        lemma_sorted_chain(s1, 0, i);
                        crate::prufer_group::lemma_grade_trans(h2, h1, tg(s1[i]));
                    }
                }
            }
            lemma_coeff_above(h2, s1);
            assert(false);
        } else {
            lemma_grade_total(h1, h2);
            lemma_coeff_above(h1, s1.drop_first());
            lemma_coeff_above(h1, s2.drop_first());
            assert(coeff_at(s1, h1) == s1[0].0);
            assert(coeff_at(s2, h1) == s2[0].0);
            assert(s1[0] == s2[0]);
            assert forall|g: (nat, nat)| #[trigger] coeff_at(s1.drop_first(), g) == coeff_at(
                s2.drop_first(),
                g,
            ) by {
                if g == h1 {
                    lemma_coeff_above(h1, s1.drop_first());
                    lemma_coeff_above(h1, s2.drop_first());
                } else {
                    assert(coeff_at(s1, g) == coeff_at(s1.drop_first(), g));
                    assert(coeff_at(s2, g) == coeff_at(s2.drop_first(), g));
                }
            }
            lemma_canon_ext(s1.drop_first(), s2.drop_first());
            assert(s1 =~= seq![s1[0]] + s1.drop_first());
            assert(s2 =~= seq![s2[0]] + s2.drop_first());
        }
    }
}

/// Addition is associative: the canonical sum does not depend on grouping.
pub proof fn lemma_add_assoc(
    a: Seq<(int, nat, nat)>,
    b: Seq<(int, nat, nat)>,
    c: Seq<(int, nat, nat)>,
)
    requires
        cyc_wf(a),
        cyc_wf(b),
        cyc_wf(c),
    ensures
        merge(merge(a, b), c) == merge(a, merge(b, c)),
{
    lemma_merge_wf(a, b);
    lemma_merge_wf(b, c);
    lemma_merge_wf(merge(a, b), c);
    lemma_merge_wf(a, merge(b, c));
    assert forall|g: (nat, nat)| #[trigger] coeff_at(merge(merge(a, b), c), g) == coeff_at(
        merge(a, merge(b, c)),
        g,
    ) by {
        lemma_merge_coeff(a, b, g);
        lemma_merge_coeff(merge(a, b), c, g);
        lemma_merge_coeff(b, c, g);
        lemma_merge_coeff(a, merge(b, c), g);
    }
    lemma_canon_ext(merge(merge(a, b), c), merge(a, merge(b, c)));
}

} // verus!
