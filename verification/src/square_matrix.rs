use crate::cyclotomic::{
    cmul, cneg, cyc_wf, lemma_cmul_wf, lemma_cneg_wf, lemma_merge_wf, merge, merge_fits, one_terms,
    spec_eq, stored_ok, Cyclotomic, CyclotomicRingBase,
};
use crate::graded_ring::{
    lemma_pmerge_wf, pmerge, pmul, poly_stored_ok, poly_wf_v, ppneg, GradedRing,
};
use crate::CoxeterError;
use vstd::prelude::*;

verus! {

/// The ring of square matrices of a fixed dimension over a base ring.
#[derive(Clone, Debug)]
pub struct SquareMatrixRingBase<R> {
    pub base_ring: R,
    pub dimension: usize,
}

impl<R> SquareMatrixRingBase<R> {
    pub fn new(base_ring: R, dimension: usize) -> (r: Self)
        ensures
            r.base_ring == base_ring,
            r.dimension == dimension,
    {
        Self { base_ring, dimension }
    }
}

/// The mathematical reading of a stored cyclotomic matrix.
pub open spec fn mat_v(m: Seq<Vec<Cyclotomic>>) -> Seq<Seq<Seq<(int, nat, nat)>>> {
    m.map_values(|row: Vec<Cyclotomic>| row@.map_values(|x: Cyclotomic| x@))
}

/// A stored `n` by `n` matrix of well-formed cyclotomic numbers.
pub open spec fn mat_wf(m: Seq<Vec<Cyclotomic>>, n: nat) -> bool {
    &&& m.len() == n
    &&& forall|i: int| 0 <= i < n ==> (#[trigger] m[i])@.len() == n
    &&& forall|i: int, j: int| 0 <= i < n && 0 <= j < n ==> (#[trigger] m[i]@[j]).wf()
}

/// Entry `(i, j)` of the identity matrix.
pub open spec fn ident_entry(i: int, j: int) -> Seq<(int, nat, nat)> {
    if i == j {
        one_terms()
    } else {
        Seq::empty()
    }
}

/// The dot product of row `i` of `a` with column `j` of `b`, over the
/// first `k` indices.
pub open spec fn dot(
    a: Seq<Seq<Seq<(int, nat, nat)>>>,
    b: Seq<Seq<Seq<(int, nat, nat)>>>,
    i: int,
    j: int,
    k: int,
) -> Seq<(int, nat, nat)>
    decreases k,
{
    if k <= 0 {
        Seq::empty()
    } else {
        merge(dot(a, b, i, j, k - 1), cmul(a[i][k - 1], b[k - 1][j]))
    }
}

/// The matrix product at view level.
pub open spec fn mat_mul_v(
    a: Seq<Seq<Seq<(int, nat, nat)>>>,
    b: Seq<Seq<Seq<(int, nat, nat)>>>,
    n: nat,
) -> Seq<Seq<Seq<(int, nat, nat)>>> {
    Seq::new(n, |i: int| Seq::new(n, |j: int| dot(a, b, i, j, n as int)))
}

/// The matrix sum at view level.
pub open spec fn mat_add_v(
    a: Seq<Seq<Seq<(int, nat, nat)>>>,
    b: Seq<Seq<Seq<(int, nat, nat)>>>,
    n: nat,
) -> Seq<Seq<Seq<(int, nat, nat)>>> {
    Seq::new(n, |i: int| Seq::new(n, |j: int| merge(a[i][j], b[i][j])))
}

/// The matrix negation at view level.
pub open spec fn mat_neg_v(a: Seq<Seq<Seq<(int, nat, nat)>>>, n: nat) -> Seq<
    Seq<Seq<(int, nat, nat)>>,
> {
    Seq::new(n, |i: int| Seq::new(n, |j: int| cneg(a[i][j])))
}

/// The zero matrix at view level.
pub open spec fn mat_zero_v(n: nat) -> Seq<Seq<Seq<(int, nat, nat)>>> {
    Seq::new(n, |i: int| Seq::new(n, |j: int| Seq::<(int, nat, nat)>::empty()))
}

/// The identity matrix at view level.
pub open spec fn mat_one_v(n: nat) -> Seq<Seq<Seq<(int, nat, nat)>>> {
    Seq::new(n, |i: int| Seq::new(n, |j: int| ident_entry(i, j)))
}

/// Operational identity test: every entry is operationally equal to the
/// matching identity entry, under the exact zero test.
pub open spec fn mat_is_one_op(m: Seq<Seq<Seq<(int, nat, nat)>>>, n: nat) -> bool {
    forall|i: int, j: int| 0 <= i < n && 0 <= j < n ==> spec_eq(#[trigger] m[i][j], ident_entry(i, j))
}

/// Every entrywise sum of the two matrices stays in range.
pub open spec fn mat_add_fits(
    a: Seq<Seq<Seq<(int, nat, nat)>>>,
    b: Seq<Seq<Seq<(int, nat, nat)>>>,
    n: nat,
) -> bool {
    forall|i: int, j: int|
        0 <= i < n && 0 <= j < n ==> merge_fits(#[trigger] a[i][j], #[trigger] b[i][j])
}

/// Every machine-range condition of one dot product holds.
pub open spec fn dot_fits(
    a: Seq<Seq<Seq<(int, nat, nat)>>>,
    b: Seq<Seq<Seq<(int, nat, nat)>>>,
    i: int,
    j: int,
    k: int,
) -> bool
    decreases k,
{
    if k <= 0 {
        true
    } else {
        &&& dot_fits(a, b, i, j, k - 1)
        &&& crate::cyclotomic::cmul_fits(a[i][k - 1], b[k - 1][j])
        &&& merge_fits(dot(a, b, i, j, k - 1), cmul(a[i][k - 1], b[k - 1][j]))
    }
}

/// A fitting dot product fits at every step.
pub proof fn lemma_dot_fits_at(
    a: Seq<Seq<Seq<(int, nat, nat)>>>,
    b: Seq<Seq<Seq<(int, nat, nat)>>>,
    i: int,
    j: int,
    n: int,
    k: int,
)
    requires
        dot_fits(a, b, i, j, n),
        0 <= k < n,
    ensures
        crate::cyclotomic::cmul_fits(a[i][k], b[k][j]),
        merge_fits(dot(a, b, i, j, k), cmul(a[i][k], b[k][j])),
    decreases n,
{
    if k + 1 < n {
        lemma_dot_fits_at(a, b, i, j, n - 1, k);
    }
}

/// Every machine-range condition of the matrix product holds.
pub open spec fn mat_mul_fits(
    a: Seq<Seq<Seq<(int, nat, nat)>>>,
    b: Seq<Seq<Seq<(int, nat, nat)>>>,
    n: nat,
) -> bool {
    forall|i: int, j: int| 0 <= i < n && 0 <= j < n ==> #[trigger] dot_fits(a, b, i, j, n as int)
}

/// Every machine-range condition of the identity test holds.
pub open spec fn mat_isone_fits(m: Seq<Seq<Seq<(int, nat, nat)>>>, n: nat) -> bool {
    forall|i: int, j: int|
        0 <= i < n && 0 <= j < n ==> crate::cyclotomic::eq_test_fits(
            #[trigger] m[i][j],
            ident_entry(i, j),
        )
}

impl SquareMatrixRingBase<CyclotomicRingBase> {
    /// The zero matrix.
    pub fn zero(&self) -> (r: Vec<Vec<Cyclotomic>>)
        ensures
            mat_wf(r@, self.dimension as nat),
            forall|i: int, j: int|
                0 <= i < self.dimension && 0 <= j < self.dimension ==> mat_v(r@)[i][j]
                    == Seq::<(int, nat, nat)>::empty(),
    {
        let n = self.dimension;
        let mut m: Vec<Vec<Cyclotomic>> = Vec::new();
        let mut i: usize = 0;
        while i < n
            invariant
                i <= n,
                m@.len() == i,
                forall|a: int| 0 <= a < i ==> (#[trigger] m@[a])@.len() == n,
                forall|a: int, b: int|
                    0 <= a < i && 0 <= b < n ==> (#[trigger] m@[a]@[b]).wf() && m@[a]@[b]@
                        == Seq::<(int, nat, nat)>::empty(),
            decreases n - i,
        {
            let mut row: Vec<Cyclotomic> = Vec::new();
            let mut j: usize = 0;
            while j < n
                invariant
                    j <= n,
                    row@.len() == j,
                    forall|b: int|
                        0 <= b < j ==> (#[trigger] row@[b]).wf() && row@[b]@
                            == Seq::<(int, nat, nat)>::empty(),
                decreases n - j,
            {
                row.push(Cyclotomic::zero());
                j += 1;
            }
            m.push(row);
            i += 1;
        }
        m
    }

    /// The identity matrix.
    pub fn one(&self) -> (r: Vec<Vec<Cyclotomic>>)
        ensures
            mat_wf(r@, self.dimension as nat),
            forall|i: int, j: int|
                0 <= i < self.dimension && 0 <= j < self.dimension ==> mat_v(r@)[i][j]
                    == ident_entry(i, j),
    {
        let n = self.dimension;
        let mut m: Vec<Vec<Cyclotomic>> = Vec::new();
        let mut i: usize = 0;
        while i < n
            invariant
                i <= n,
                m@.len() == i,
                forall|a: int| 0 <= a < i ==> (#[trigger] m@[a])@.len() == n,
                forall|a: int, b: int|
                    0 <= a < i && 0 <= b < n ==> (#[trigger] m@[a]@[b]).wf() && m@[a]@[b]@
                        == ident_entry(a, b),
            decreases n - i,
        {
            let mut row: Vec<Cyclotomic> = Vec::new();
            let mut j: usize = 0;
            while j < n
                invariant
                    j <= n,
                    row@.len() == j,
                    forall|b: int|
                        0 <= b < j ==> (#[trigger] row@[b]).wf() && row@[b]@ == ident_entry(
                            i as int,
                            b,
                        ),
                decreases n - j,
            {
                if j == i {
                    row.push(Cyclotomic::one());
                } else {
                    row.push(Cyclotomic::zero());
                }
                j += 1;
            }
            m.push(row);
            i += 1;
        }
        m
    }

    /// Entrywise canonical sum.
    pub fn add(&self, a: &Vec<Vec<Cyclotomic>>, b: &Vec<Vec<Cyclotomic>>) -> (r: Result<
        Vec<Vec<Cyclotomic>>,
        CoxeterError,
    >)
        requires
            mat_wf(a@, self.dimension as nat),
            mat_wf(b@, self.dimension as nat),
        ensures
            r is Err ==> r->Err_0 == CoxeterError::Overflow,
            mat_add_fits(mat_v(a@), mat_v(b@), self.dimension as nat) ==> r is Ok,
            r is Ok ==> mat_wf(r->Ok_0@, self.dimension as nat) && mat_v(r->Ok_0@) == mat_add_v(
                mat_v(a@),
                mat_v(b@),
                self.dimension as nat,
            ),
    {
        let n = self.dimension;
        let mut m: Vec<Vec<Cyclotomic>> = Vec::new();
        let mut i: usize = 0;
        while i < n
            invariant
                mat_wf(a@, n as nat),
                mat_wf(b@, n as nat),
                n == self.dimension,
                i <= n,
                m@.len() == i,
                forall|x: int| 0 <= x < i ==> (#[trigger] m@[x])@.len() == n,
                forall|x: int, y: int|
                    0 <= x < i && 0 <= y < n ==> (#[trigger] m@[x]@[y]).wf() && m@[x]@[y]@ == merge(
                        mat_v(a@)[x][y],
                        mat_v(b@)[x][y],
                    ),
            decreases n - i,
        {
            let mut row: Vec<Cyclotomic> = Vec::new();
            let mut j: usize = 0;
            while j < n
                invariant
                    mat_wf(a@, n as nat),
                    mat_wf(b@, n as nat),
                    n == self.dimension,
                    i < n,
                    j <= n,
                    row@.len() == j,
                    forall|y: int|
                        0 <= y < j ==> (#[trigger] row@[y]).wf() && row@[y]@ == merge(
                            mat_v(a@)[i as int][y],
                            mat_v(b@)[i as int][y],
                        ),
                decreases n - j,
            {
                let s = match a[i][j].add(&b[i][j]) {
                    Ok(s) => s,
                    Err(e) => {
                        proof {
                            assert(mat_v(a@)[i as int][j as int] == a@[i as int]@[j as int]@);
                            assert(mat_v(b@)[i as int][j as int] == b@[i as int]@[j as int]@);
                        }
                        return Err(e);
                    },
                };
                row.push(s);
                j += 1;
            }
            m.push(row);
            i += 1;
        }
        proof {
            assert(mat_v(m@) =~~= mat_add_v(mat_v(a@), mat_v(b@), n as nat));
        }
        Ok(m)
    }

    /// Entrywise negation.
    pub fn negate(&self, a: &Vec<Vec<Cyclotomic>>) -> (r: Vec<Vec<Cyclotomic>>)
        requires
            mat_wf(a@, self.dimension as nat),
        ensures
            mat_wf(r@, self.dimension as nat),
            mat_v(r@) == mat_neg_v(mat_v(a@), self.dimension as nat),
    {
        let n = self.dimension;
        let mut m: Vec<Vec<Cyclotomic>> = Vec::new();
        let mut i: usize = 0;
        while i < n
            invariant
                mat_wf(a@, n as nat),
                n == self.dimension,
                i <= n,
                m@.len() == i,
                forall|x: int| 0 <= x < i ==> (#[trigger] m@[x])@.len() == n,
                forall|x: int, y: int|
                    0 <= x < i && 0 <= y < n ==> (#[trigger] m@[x]@[y]).wf() && m@[x]@[y]@ == cneg(
                        mat_v(a@)[x][y],
                    ),
            decreases n - i,
        {
            let mut row: Vec<Cyclotomic> = Vec::new();
            let mut j: usize = 0;
            while j < n
                invariant
                    mat_wf(a@, n as nat),
                    n == self.dimension,
                    i < n,
                    j <= n,
                    row@.len() == j,
                    forall|y: int|
                        0 <= y < j ==> (#[trigger] row@[y]).wf() && row@[y]@ == cneg(
                            mat_v(a@)[i as int][y],
                        ),
                decreases n - j,
            {
                proof {
                    lemma_cneg_wf(mat_v(a@)[i as int][j as int]);
                }
                row.push(a[i][j].neg());
                j += 1;
            }
            m.push(row);
            i += 1;
        }
        proof {
            assert(mat_v(m@) =~~= mat_neg_v(mat_v(a@), n as nat));
        }
        m
    }

    /// Matrix product.
    pub fn mul(&self, a: &Vec<Vec<Cyclotomic>>, b: &Vec<Vec<Cyclotomic>>) -> (r: Result<
        Vec<Vec<Cyclotomic>>,
        CoxeterError,
    >)
        requires
            mat_wf(a@, self.dimension as nat),
            mat_wf(b@, self.dimension as nat),
        ensures
            r is Err ==> r->Err_0 == CoxeterError::Overflow,
            mat_mul_fits(mat_v(a@), mat_v(b@), self.dimension as nat) ==> r is Ok,
            r is Ok ==> mat_wf(r->Ok_0@, self.dimension as nat) && mat_v(r->Ok_0@) == mat_mul_v(
                mat_v(a@),
                mat_v(b@),
                self.dimension as nat,
            ),
    {
        let n = self.dimension;
        let mut m: Vec<Vec<Cyclotomic>> = Vec::new();
        let mut i: usize = 0;
        while i < n
            invariant
                mat_wf(a@, n as nat),
                mat_wf(b@, n as nat),
                n == self.dimension,
                i <= n,
                m@.len() == i,
                forall|x: int| 0 <= x < i ==> (#[trigger] m@[x])@.len() == n,
                forall|x: int, y: int|
                    0 <= x < i && 0 <= y < n ==> (#[trigger] m@[x]@[y]).wf() && m@[x]@[y]@ == dot(
                        mat_v(a@),
                        mat_v(b@),
                        x,
                        y,
                        n as int,
                    ),
            decreases n - i,
        {
            let mut row: Vec<Cyclotomic> = Vec::new();
            let mut j: usize = 0;
            while j < n
                invariant
                    mat_wf(a@, n as nat),
                    mat_wf(b@, n as nat),
                    n == self.dimension,
                    i < n,
                    j <= n,
                    row@.len() == j,
                    forall|y: int|
                        0 <= y < j ==> (#[trigger] row@[y]).wf() && row@[y]@ == dot(
                            mat_v(a@),
                            mat_v(b@),
                            i as int,
                            y,
                            n as int,
                        ),
                decreases n - j,
            {
                let mut acc = Cyclotomic::zero();
                let mut k: usize = 0;
                while k < n
                    invariant
                        mat_wf(a@, n as nat),
                        mat_wf(b@, n as nat),
                        n == self.dimension,
                        i < n,
                        j < n,
                        k <= n,
                        acc.wf(),
                        acc@ == dot(mat_v(a@), mat_v(b@), i as int, j as int, k as int),
                    decreases n - k,
                {
                    let p = match a[i][k].mul(&b[k][j]) {
                        Ok(p) => p,
                        Err(e) => {
                            proof {
                                assert(mat_v(a@)[i as int][k as int] == a@[i as int]@[k as int]@);
                                assert(mat_v(b@)[k as int][j as int] == b@[k as int]@[j as int]@);
                                if mat_mul_fits(mat_v(a@), mat_v(b@), n as nat) {
                                    lemma_dot_fits_at(
                                        mat_v(a@),
                                        mat_v(b@),
                                        i as int,
                                        j as int,
                                        n as int,
                                        k as int,
                                    );
                                }
                            }
                            return Err(e);
                        },
                    };
                    let s = match acc.add(&p) {
                        Ok(s) => s,
                        Err(e) => {
                            proof {
                                assert(mat_v(a@)[i as int][k as int] == a@[i as int]@[k as int]@);
                                assert(mat_v(b@)[k as int][j as int] == b@[k as int]@[j as int]@);
                                if mat_mul_fits(mat_v(a@), mat_v(b@), n as nat) {
                                    lemma_dot_fits_at(
                                        mat_v(a@),
                                        mat_v(b@),
                                        i as int,
                                        j as int,
                                        n as int,
                                        k as int,
                                    );
                                }
                            }
                            return Err(e);
                        },
                    };
                    acc = s;
                    k += 1;
                }
                row.push(acc);
                j += 1;
            }
            m.push(row);
            i += 1;
        }
        proof {
            assert(mat_v(m@) =~~= mat_mul_v(mat_v(a@), mat_v(b@), n as nat));
        }
        Ok(m)
    }

    /// Operational identity test under the exact zero test.
    pub fn is_one(&self, a: &Vec<Vec<Cyclotomic>>) -> (r: Result<bool, CoxeterError>)
        requires
            mat_wf(a@, self.dimension as nat),
        ensures
            r is Err ==> r->Err_0 == CoxeterError::Overflow,
            mat_isone_fits(mat_v(a@), self.dimension as nat) ==> r is Ok,
            r is Ok ==> r->Ok_0 == mat_is_one_op(mat_v(a@), self.dimension as nat),
    {
        let n = self.dimension;
        let ident = self.one();
        let mut i: usize = 0;
        while i < n
            invariant
                mat_wf(a@, n as nat),
                mat_wf(ident@, n as nat),
                n == self.dimension,
                i <= n,
                forall|x: int, y: int|
                    0 <= x < n && 0 <= y < n ==> mat_v(ident@)[x][y] == ident_entry(x, y),
                forall|x: int, y: int|
                    0 <= x < i && 0 <= y < n ==> spec_eq(#[trigger] mat_v(a@)[x][y], ident_entry(x, y)),
            decreases n - i,
        {
            let mut j: usize = 0;
            while j < n
                invariant
                    mat_wf(a@, n as nat),
                    mat_wf(ident@, n as nat),
                    n == self.dimension,
                    i < n,
                    j <= n,
                    forall|x: int, y: int|
                        0 <= x < n && 0 <= y < n ==> mat_v(ident@)[x][y] == ident_entry(x, y),
                    forall|y: int|
                        0 <= y < j ==> spec_eq(#[trigger] mat_v(a@)[i as int][y], ident_entry(i as int, y)),
                decreases n - j,
            {
                let e = match a[i][j].eq_el(&ident[i][j]) {
                    Ok(e) => e,
                    Err(e) => {
                        proof {
                            assert(mat_v(a@)[i as int][j as int] == a@[i as int]@[j as int]@);
                            assert(ident@[i as int]@[j as int]@ == mat_v(ident@)[i as int][
                            j as int]);
                        }
                        return Err(e);
                    },
                };
                if !e {
                    proof {
                        assert(mat_v(a@)[i as int][j as int] == a@[i as int]@[j as int]@);
                        assert(!spec_eq(mat_v(a@)[i as int][j as int], ident_entry(i as int, j as int)));
                    }
                    return Ok(false);
                }
                j += 1;
            }
            i += 1;
        }
        Ok(true)
    }
}

/// The mathematical reading of a stored polynomial matrix.
pub open spec fn pmat_v(m: Seq<Vec<GradedRing>>) -> Seq<Seq<Seq<(Seq<(int, nat, nat)>, nat)>>> {
    m.map_values(|row: Vec<GradedRing>| row@.map_values(|x: GradedRing| x@))
}

/// A stored `n` by `n` matrix of well-formed polynomials.
pub open spec fn pmat_wf(m: Seq<Vec<GradedRing>>, n: nat) -> bool {
    &&& m.len() == n
    &&& forall|i: int| 0 <= i < n ==> (#[trigger] m[i])@.len() == n
    &&& forall|i: int, j: int| 0 <= i < n && 0 <= j < n ==> (#[trigger] m[i]@[j]).wf()
}

/// The constant polynomial one.
pub open spec fn pone_v() -> Seq<(Seq<(int, nat, nat)>, nat)> {
    seq![(one_terms(), 0nat)]
}

/// The view of the minor that deletes row zero and column `col`.
pub open spec fn minor_v(
    m: Seq<Seq<Seq<(Seq<(int, nat, nat)>, nat)>>>,
    col: int,
) -> Seq<Seq<Seq<(Seq<(int, nat, nat)>, nat)>>> {
    m.drop_first().map_values(|row: Seq<Seq<(Seq<(int, nat, nat)>, nat)>>| row.remove(col))
}

/// The determinant by cofactor expansion along the first row.
pub open spec fn det_v(m: Seq<Seq<Seq<(Seq<(int, nat, nat)>, nat)>>>) -> Seq<
    (Seq<(int, nat, nat)>, nat),
>
    decreases m.len(), 1int,
{
    if m.len() == 0 {
        pone_v()
    } else {
        det_cols_v(m, 0, m.len() as int)
    }
}

/// The tail of the cofactor expansion from column `j`, with `k` columns left.
pub open spec fn det_cols_v(m: Seq<Seq<Seq<(Seq<(int, nat, nat)>, nat)>>>, j: int, k: int) -> Seq<
    (Seq<(int, nat, nat)>, nat),
>
    decreases m.len(), 0int, k,
{
    if k <= 0 || m.len() == 0 {
        Seq::empty()
    } else {
        let t = pmul(m[0][j], det_v(minor_v(m, j)));
        let st = if j % 2 == 0 {
            t
        } else {
            ppneg(t)
        };
        pmerge(st, det_cols_v(m, j + 1, k - 1))
    }
}

/// Every machine-range condition of the cofactor determinant holds.
pub open spec fn det_full_fits(m: Seq<Seq<Seq<(Seq<(int, nat, nat)>, nat)>>>) -> bool
    decreases m.len(), 1int,
{
    if m.len() == 0 {
        true
    } else {
        det_cols_fits(m, 0, m.len() as int)
    }
}

/// Every machine-range condition of the cofactor tail holds.
pub open spec fn det_cols_fits(m: Seq<Seq<Seq<(Seq<(int, nat, nat)>, nat)>>>, j: int, k: int) -> bool
    decreases m.len(), 0int, k,
{
    if k <= 0 || m.len() == 0 {
        true
    } else {
        let t = pmul(m[0][j], det_v(minor_v(m, j)));
        let st = if j % 2 == 0 {
            t
        } else {
            ppneg(t)
        };
        &&& det_full_fits(minor_v(m, j))
        &&& crate::graded_ring::pmul_fits(m[0][j], det_v(minor_v(m, j)))
        &&& crate::graded_ring::pmerge_fits(st, det_cols_v(m, j + 1, k - 1))
        &&& det_cols_fits(m, j + 1, k - 1)
    }
}

/// Builds the stored minor that deletes row zero and column `col`.
fn poly_minor(m: &Vec<Vec<GradedRing>>, col: usize, n: usize) -> (r: Vec<Vec<GradedRing>>)
    requires
        pmat_wf(m@, n as nat),
        1 <= n,
        col < n,
    ensures
        pmat_wf(r@, (n - 1) as nat),
        pmat_v(r@) == minor_v(pmat_v(m@), col as int),
    decreases n,
{
    let mut out: Vec<Vec<GradedRing>> = Vec::new();
    let mut i: usize = 1;
    while i < n
        invariant
            pmat_wf(m@, n as nat),
            1 <= i <= n,
            col < n,
            out@.len() == i - 1,
            forall|x: int| 0 <= x < i - 1 ==> (#[trigger] out@[x])@.len() == n - 1,
            forall|x: int, y: int|
                0 <= x < i - 1 && 0 <= y < n - 1 ==> (#[trigger] out@[x]@[y]).wf()
                    && out@[x]@[y]@ == pmat_v(m@)[x + 1].remove(col as int)[y],
        decreases n - i,
    {
        let mut row: Vec<GradedRing> = Vec::new();
        let mut j: usize = 0;
        while j < n
            invariant
                pmat_wf(m@, n as nat),
                1 <= i < n,
                col < n,
                j <= n,
                row@.len() == (if j <= col {
                    j as int
                } else {
                    j - 1
                }),
                forall|y: int|
                    0 <= y < row@.len() ==> (#[trigger] row@[y]).wf() && row@[y]@ == pmat_v(
                        m@,
                    )[i as int].remove(col as int)[y],
            decreases n - j,
        {
            if j != col {
                let e = m[i][j].clone();
                proof {
                    assert(e@ == pmat_v(m@)[i as int][j as int]);
                    assert(pmat_v(m@)[i as int].remove(col as int)[row@.len() as int] == pmat_v(
                        m@,
                    )[i as int][j as int]);
                }
                row.push(e);
            }
            j += 1;
        }
        out.push(row);
        i += 1;
    }
    proof {
        assert(pmat_v(out@) =~~= minor_v(pmat_v(m@), col as int));
    }
    out
}

/// The cofactor expansion from column `j` with `k` columns left.
fn det_cols(m: &Vec<Vec<GradedRing>>, n: usize, j: usize, k: usize) -> (r: Result<
    GradedRing,
    CoxeterError,
>)
    requires
        pmat_wf(m@, n as nat),
        1 <= n,
        j + k == n,
    ensures
        r is Err ==> r->Err_0 == CoxeterError::Overflow,
        det_cols_fits(pmat_v(m@), j as int, k as int) ==> r is Ok,
        r is Ok ==> r->Ok_0.wf() && r->Ok_0@ == det_cols_v(pmat_v(m@), j as int, k as int),
    decreases n, 0int, k,
{
    if k == 0 {
        Ok(GradedRing::zero())
    } else {
        let rest = match det_cols(m, n, j + 1, k - 1) {
            Ok(rest) => rest,
            Err(e) => {
                return Err(e);
            },
        };
        let ghost mv = pmat_v(m@);
        if m[0][j].get_terms().len() == 0 {
            proof {
                assert(mv[0][j as int] == m@[0]@[j as int]@);
                assert(mv[0][j as int].len() == 0);
                assert(pmul(mv[0][j as int], det_v(minor_v(mv, j as int)))
                    == Seq::<(Seq<(int, nat, nat)>, nat)>::empty());
                assert(ppneg(Seq::<(Seq<(int, nat, nat)>, nat)>::empty()) =~= Seq::<(
                    Seq<(int, nat, nat)>,
                    nat,
                )>::empty());
            }
            Ok(rest)
        } else {
            let sub = poly_minor(m, j, n);
            let d = match determinant(n - 1, &sub) {
                Ok(d) => d,
                Err(e) => {
                    proof {
                        assert(pmat_v(sub@) == minor_v(mv, j as int));
                    }
                    return Err(e);
                },
            };
            let entry = m[0][j].clone();
            proof {
                assert(entry@ == pmat_v(m@)[0][j as int]);
            }
            let t = match entry.mul(&d) {
                Ok(t) => t,
                Err(e) => {
                    proof {
                        assert(!crate::graded_ring::pmul_fits(mv[0][j as int], det_v(minor_v(
                            mv,
                            j as int,
                        ))));
                    }
                    return Err(e);
                },
            };
            let st = if j % 2 == 0 {
                t
            } else {
                t.neg()
            };
            proof {
                crate::graded_ring::lemma_pwf_coeffs(st@);
                crate::graded_ring::lemma_pwf_coeffs(rest@);
            }
            match st.add_impl(&rest) {
                Ok(out) => Ok(out),
                Err(e) => {
                    proof {
                        assert(!crate::graded_ring::pmerge_fits(st@, det_cols_v(mv, j + 1, k
                            - 1)));
                    }
                    Err(e)
                },
            }
        }
    }
}

/// The determinant of a square polynomial matrix, by cofactor expansion
/// along the first row, skipping structurally zero entries.
pub fn determinant(dimension: usize, matrix: &Vec<Vec<GradedRing>>) -> (r: Result<
    GradedRing,
    CoxeterError,
>)
    requires
        pmat_wf(matrix@, dimension as nat),
    ensures
        r is Err ==> r->Err_0 == CoxeterError::Overflow,
        det_full_fits(pmat_v(matrix@)) ==> r is Ok,
        r is Ok ==> r->Ok_0.wf() && r->Ok_0@ == det_v(pmat_v(matrix@)),
    decreases dimension, 2int, 0int,
{
    if dimension == 0 {
        Ok(GradedRing::monomial(0))
    } else {
        det_cols(matrix, dimension, 0, dimension)
    }
}

} // verus!
