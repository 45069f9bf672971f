use crate::cyclotomic::{
    cyc_wf, int_terms, spec_is_zero, stored_ok, tg, tv, Cyclotomic, CyclotomicRingBase,
};
use crate::graded_ring::{poly_const, GradedRing};
use crate::numeric::{sign_estimate, Sign};
use crate::prufer_group::{spec_reduce, PruferGroup, GRADE_DENOM_MAX};
use crate::square_matrix::{
    det_v, mat_v, mat_wf, pmat_v, pmat_wf, SquareMatrixRingBase,
};
use crate::CoxeterError;
use vstd::prelude::*;

verus! {

/// Largest bond label a diagram may carry: twice the label must stay a
/// valid grade denominator.
pub const LABEL_MAX: u64 = 0x7FFF_FFFF;

/// The classification of a Coxeter group: finite, affine, or indefinite.
#[derive(Clone, Copy, Debug, PartialEq, Eq, Structural)]
pub enum CoxeterGroupType {
    Elliptic,
    Parabolic,
    Hyperbolic,
}

/// The invariants of a finite Coxeter group.
#[derive(Debug, PartialEq, Eq)]
pub struct CoxeterGroupInfo {
    pub coxeter_number: u64,
    pub order: u64,
    pub exponents: Vec<u64>,
    pub degrees: Vec<u64>,
}

/// The named families of Coxeter diagrams.
#[derive(Clone, Copy, Debug, PartialEq, Eq, Structural)]
pub enum CoxeterDiagramType {
    A(usize),
    B(usize),
    C(usize),
    D(usize),
    E(usize),
    F(usize),
    G(usize),
    H(usize),
    I2(u64),
}

/// A Coxeter diagram: a labeled undirected graph on `rank` nodes. An edge
/// label is the bond order between two simple roots; `3` is the unlabeled
/// bond. Edges are stored normalized (`i < j`), one entry per node pair.
#[derive(Debug)]
pub struct CoxeterDiagram {
    pub rank: usize,
    pub edges: Vec<((usize, usize), u64)>,
}

/// The normalized form of a node pair.
pub open spec fn norm_pair(i: nat, j: nat) -> (nat, nat) {
    if i <= j {
        (i, j)
    } else {
        (j, i)
    }
}

/// The labeling a stored edge list denotes: later entries win.
pub open spec fn edges_map(s: Seq<((usize, usize), u64)>) -> Map<(nat, nat), nat>
    decreases s.len(),
{
    if s.len() == 0 {
        Map::empty()
    } else {
        edges_map(s.drop_last()).insert(
            norm_pair(s.last().0.0 as nat, s.last().0.1 as nat),
            s.last().1 as nat,
        )
    }
}

/// One labeling entry is acceptable for a diagram of the given rank.
pub open spec fn edge_ok(rank: nat, e: ((usize, usize), u64)) -> bool {
    &&& e.0.0 < rank
    &&& e.0.1 < rank
    &&& e.0.0 != e.0.1
    &&& 3 <= e.1 <= LABEL_MAX
}

impl CoxeterDiagram {
    /// Edges are normalized, in range, labeled within bounds, and one per
    /// node pair.
    pub open spec fn wf(&self) -> bool {
        &&& forall|k: int|
            0 <= k < self.edges@.len() ==> edge_ok(self.rank as nat, #[trigger] self.edges@[k])
                && self.edges@[k].0.0 < self.edges@[k].0.1
        &&& forall|k1: int, k2: int|
            0 <= k1 < k2 < self.edges@.len() ==> (#[trigger] self.edges@[k1]).0 != (
            #[trigger] self.edges@[k2]).0
    }

    /// The labeling this diagram denotes.
    pub open spec fn labeling(&self) -> Map<(nat, nat), nat> {
        edges_map(self.edges@)
    }

    /// Builds a diagram of the given rank from a labeling; rejects exactly
    /// the lists with an out-of-range endpoint, a self loop, or a label
    /// outside `3 ..= LABEL_MAX`. A pair listed twice keeps its last label.
    pub fn new(rank: usize, labels: Vec<((usize, usize), u64)>) -> (r: Result<Self, CoxeterError>)
        ensures
            r is Ok <==> (forall|k: int|
                0 <= k < labels@.len() ==> edge_ok(rank as nat, #[trigger] labels@[k])),
            r is Ok ==> r->Ok_0.wf() && r->Ok_0.rank == rank && r->Ok_0.labeling() == edges_map(
                labels@,
            ),
    {
        let mut d = CoxeterDiagram { rank, edges: Vec::new() };
        let mut k: usize = 0;
        proof {
            assert(edges_map(labels@.take(0)) =~= Map::<(nat, nat), nat>::empty());
        }
        while k < labels.len()
            invariant
                k <= labels.len(),
                d.rank == rank,
                d.wf(),
                forall|m: int| 0 <= m < k ==> edge_ok(rank as nat, #[trigger] labels@[m]),
                d.labeling() == edges_map(labels@.take(k as int)),
            decreases labels.len() - k,
        {
            let ((i, j), label) = labels[k];
            if i >= rank || j >= rank || i == j || label < 3 || label > LABEL_MAX {
                return Err(CoxeterError::InvalidConstruction);
            }
            d.set_edge(i, j, label);
            proof {
                assert(labels@.take(k + 1).drop_last() =~= labels@.take(k as int));
                assert(labels@.take(k + 1).last() == labels@[k as int]);
            }
            k += 1;
        }
        proof {
            assert(labels@.take(labels@.len() as int) =~= labels@);
        }
        Ok(d)
    }

    pub fn rank(&self) -> (r: usize)
        ensures
            r == self.rank,
    {
        self.rank
    }

    /// Adds an isolated node.
    pub fn add_node(&mut self)
        requires
            old(self).wf(),
            old(self).rank < usize::MAX,
        ensures
            final(self).wf(),
            final(self).rank == old(self).rank + 1,
            final(self).edges == old(self).edges,
    {
        self.rank = self.rank + 1;
    }

    /// Sets or replaces the label of the edge between `i` and `j`.
    pub fn set_edge(&mut self, i: usize, j: usize, label: u64)
        requires
            old(self).wf(),
            i < old(self).rank,
            j < old(self).rank,
            i != j,
            3 <= label <= LABEL_MAX,
        ensures
            final(self).wf(),
            final(self).rank == old(self).rank,
            final(self).labeling() == old(self).labeling().insert(
                norm_pair(i as nat, j as nat),
                label as nat,
            ),
            final(self).edges@.len() == old(self).edges@.len() + (
            if old(self).labeling().contains_key(norm_pair(i as nat, j as nat)) {
                0int
            } else {
                1int
            }),
            !old(self).labeling().contains_key(norm_pair(i as nat, j as nat)) ==> final(self).edges@
                == old(self).edges@.push(
                (((if i < j { i } else { j }), (if i < j { j } else { i })), label),
            ),
    {
        let (a, b): (usize, usize) = if i < j {
            (i, j)
        } else {
            (j, i)
        };
        proof {
            assert(norm_pair(i as nat, j as nat) == (a as nat, b as nat));
        }
        let mut k: usize = 0;
        while k < self.edges.len()
            invariant
                self.wf(),
                self == old(self),
                i < old(self).rank,
                j < old(self).rank,
                i != j,
                a == (if i < j { i } else { j }),
                b == (if i < j { j } else { i }),
                3 <= label <= LABEL_MAX,
                k <= self.edges.len(),
                forall|m: int| 0 <= m < k ==> (#[trigger] self.edges@[m]).0 != (a, b),
            decreases self.edges.len() - k,
        {
            let ((x, y), _) = self.edges[k];
            if x == a && y == b {
                proof {
                    assert(a < b < old(self).rank);
                }
                let ghost pre = *self;
                self.edges.set(k, ((a, b), label));
                proof {
                    assert(pre == *old(self));
                    assert(self.rank == pre.rank);
                    assert(self.edges@ == pre.edges@.update(k as int, ((a, b), label)));
                    assert forall|m: int| 0 <= m < self.edges@.len() implies edge_ok(
                        self.rank as nat,
                        #[trigger] self.edges@[m],
                    ) && self.edges@[m].0.0 < self.edges@[m].0.1 by {
                        if m != k {
                            assert(self.edges@[m] == pre.edges@[m]);
                            assert(edge_ok(pre.rank as nat, pre.edges@[m]));
                        } else {
                            assert(self.edges@[m] == ((a, b), label));
                            assert(a < b < self.rank);
                            assert(edge_ok(self.rank as nat, ((a, b), label)));
                        }
                    }
                    assert forall|k1: int, k2: int|
                        0 <= k1 < k2 < self.edges@.len() implies (#[trigger] self.edges@[k1]).0
                        != (#[trigger] self.edges@[k2]).0 by {
                        assert(self.edges@[k1].0 == pre.edges@[k1].0);
                        assert(self.edges@[k2].0 == pre.edges@[k2].0);
                    }
                    lemma_edges_map_update(pre.edges@, self.edges@, k as int);
                    assert(norm_pair(i as nat, j as nat) == (a as nat, b as nat));
                    lemma_edges_map_found(pre.edges@, k as int, (a as nat, b as nat));
                }
                return ;
            }
            k += 1;
        }
        let glen = self.edges.len();
        self.edges.push(((a, b), label));
        proof {
            assert(self.edges@.drop_last() =~= old(self).edges@);
            assert(self.edges@.last() == ((a, b), label));
            assert(a < b < old(self).rank);
            assert forall|m: int| 0 <= m < self.edges@.len() implies edge_ok(
                self.rank as nat,
                #[trigger] self.edges@[m],
            ) && self.edges@[m].0.0 < self.edges@[m].0.1 by {
                if m < glen {
                    assert(self.edges@[m] == old(self).edges@[m]);
                }
            }
            assert forall|k1: int, k2: int|
                0 <= k1 < k2 < self.edges@.len() implies (#[trigger] self.edges@[k1]).0 != (
            #[trigger] self.edges@[k2]).0 by {
                if k2 < glen {
                    assert(self.edges@[k1].0 == old(self).edges@[k1].0);
                    assert(self.edges@[k2].0 == old(self).edges@[k2].0);
                } else {
                    assert(self.edges@[k2] == ((a, b), label));
                    if k1 < glen {
                        assert(self.edges@[k1] == old(self).edges@[k1]);
                        assert(old(self).edges@[k1].0 != (a, b));
                    }
                }
            }
            assert(norm_pair(i as nat, j as nat) == (a as nat, b as nat));
            assert forall|m: int| 0 <= m < old(self).edges@.len() implies ((
            #[trigger] old(self).edges@[m]).0.0 as nat, old(self).edges@[m].0.1 as nat) != (
            a as nat,
            b as nat,
            ) by {
                assert(old(self).edges@[m].0 != (a, b));
            }
            lemma_edges_map_absent(old(self).edges@, (a as nat, b as nat));
        }
    }

    /// Looks up the bond label between `i` and `j`.
    pub fn get_edge(&self, i: usize, j: usize) -> (r: Option<u64>)
        requires
            self.wf(),
        ensures
            r is Some <==> self.labeling().contains_key(norm_pair(i as nat, j as nat)),
            r is Some ==> r->0 as nat == self.labeling()[norm_pair(i as nat, j as nat)],
    {
        let (a, b): (usize, usize) = if i < j {
            (i, j)
        } else {
            (j, i)
        };
        let ghost key = norm_pair(i as nat, j as nat);
        proof {
            assert(key == (a as nat, b as nat));
        }
        let mut k: usize = 0;
        while k < self.edges.len()
            invariant
                self.wf(),
                k <= self.edges.len(),
                key == norm_pair(i as nat, j as nat),
                key == (a as nat, b as nat),
                forall|m: int| 0 <= m < k ==> (#[trigger] self.edges@[m]).0 != (a, b),
            decreases self.edges.len() - k,
        {
            let ((x, y), label) = self.edges[k];
            if x == a && y == b {
                proof {
                    assert((self.edges@[k as int].0.0 as nat, self.edges@[k as int].0.1 as nat)
                        == key);
                    lemma_edges_map_found(self.edges@, k as int, key);
                }
                return Some(label);
            }
            k += 1;
        }
        proof {
            assert forall|m: int| 0 <= m < self.edges@.len() implies ((
            #[trigger] self.edges@[m]).0.0 as nat, self.edges@[m].0.1 as nat) != key by {
                assert(self.edges@[m].0 != (a, b));
            }
            lemma_edges_map_absent(self.edges@, key);
        }
        None
    }
}

/// Every label in the map of a well-formed edge list is a valid bond label.
proof fn lemma_edges_map_label_ok(s: Seq<((usize, usize), u64)>, key: (nat, nat))
    requires
        forall|m: int| 0 <= m < s.len() ==> 3 <= (#[trigger] s[m]).1 <= LABEL_MAX,
        edges_map(s).contains_key(key),
    ensures
        3 <= edges_map(s)[key] <= LABEL_MAX,
    decreases s.len(),
{
    if s.len() > 0 {
        let lastkey = norm_pair(s.last().0.0 as nat, s.last().0.1 as nat);
        if key != lastkey {
            lemma_edges_map_absent_weak(s, key);
            lemma_edges_map_label_ok(s.drop_last(), key);
        }
    }
}

/// A key other than the last entry's comes from the earlier entries.
proof fn lemma_edges_map_absent_weak(s: Seq<((usize, usize), u64)>, key: (nat, nat))
    requires
        s.len() > 0,
        edges_map(s).contains_key(key),
        key != norm_pair(s.last().0.0 as nat, s.last().0.1 as nat),
    ensures
        edges_map(s.drop_last()).contains_key(key),
        edges_map(s.drop_last())[key] == edges_map(s)[key],
{
}

/// If index `k` holds the only entry for its pair, the map carries its label.
proof fn lemma_edges_map_found(s: Seq<((usize, usize), u64)>, k: int, key: (nat, nat))
    requires
        0 <= k < s.len(),
        (s[k].0.0 as nat, s[k].0.1 as nat) == key,
        s[k].0.0 <= s[k].0.1,
        forall|k1: int, k2: int|
            0 <= k1 < k2 < s.len() ==> (#[trigger] s[k1]).0 != (#[trigger] s[k2]).0,
        forall|m: int| 0 <= m < s.len() ==> (#[trigger] s[m]).0.0 <= s[m].0.1,
    ensures
        edges_map(s).contains_key(key),
        edges_map(s)[key] == s[k].1 as nat,
    decreases s.len(),
{
    if k == s.len() - 1 {
        assert(norm_pair(s.last().0.0 as nat, s.last().0.1 as nat) == key);
    } else {
        lemma_edges_map_found(s.drop_last(), k, key);
        let lastkey = norm_pair(s.last().0.0 as nat, s.last().0.1 as nat);
        assert(s[s.len() - 1].0 != s[k].0);
        assert(lastkey != key);
    }
}

/// A pair stored nowhere is absent from the map.
proof fn lemma_edges_map_absent(s: Seq<((usize, usize), u64)>, key: (nat, nat))
    requires
        key.0 <= key.1,
        forall|m: int|
            0 <= m < s.len() ==> ((#[trigger] s[m]).0.0 as nat, s[m].0.1 as nat) != key,
        forall|m: int| 0 <= m < s.len() ==> (#[trigger] s[m]).0.0 <= s[m].0.1,
    ensures
        !edges_map(s).contains_key(key),
    decreases s.len(),
{
    if s.len() > 0 {
        lemma_edges_map_absent(s.drop_last(), key);
        assert(norm_pair(s.last().0.0 as nat, s.last().0.1 as nat) != key);
    }
}

/// Replacing the entry at `k` with one of the same pair updates the map as
/// an insert of that pair.
proof fn lemma_edges_map_update(s0: Seq<((usize, usize), u64)>, s1: Seq<((usize, usize), u64)>, k: int)
    requires
        0 <= k < s0.len(),
        s1.len() == s0.len(),
        forall|m: int| 0 <= m < s0.len() && m != k ==> s0[m] == s1[m],
        s1[k].0 == s0[k].0,
        forall|k1: int, k2: int|
            0 <= k1 < k2 < s0.len() ==> (#[trigger] s0[k1]).0 != (#[trigger] s0[k2]).0,
        forall|m: int| 0 <= m < s0.len() ==> (#[trigger] s0[m]).0.0 <= s0[m].0.1,
    ensures
        edges_map(s1) == edges_map(s0).insert(
            norm_pair(s1[k].0.0 as nat, s1[k].0.1 as nat),
            s1[k].1 as nat,
        ),
    decreases s0.len(),
{
    let key = norm_pair(s1[k].0.0 as nat, s1[k].0.1 as nat);
    if k == s0.len() - 1 {
        assert(s1.drop_last() =~= s0.drop_last());
        assert(edges_map(s1) =~= edges_map(s0).insert(key, s1[k].1 as nat));
    } else {
        lemma_edges_map_update(s0.drop_last(), s1.drop_last(), k);
        assert(s0.drop_last()[k] == s0[k] && s1.drop_last()[k] == s1[k]);
        let lastkey = norm_pair(s0.last().0.0 as nat, s0.last().0.1 as nat);
        assert(s1.last() == s0.last());
        assert(s0[s0.len() - 1].0 != s0[k].0);
        assert(lastkey != key);
        assert(edges_map(s1) =~= edges_map(s0).insert(key, s1[k].1 as nat));
    }
}

/// The Schläfli matrix entry for nodes `i`, `j` under a labeling: `2` on
/// the diagonal, `0` for unconnected pairs, `-1` for the unlabeled bond,
/// and `-(z + z^(2m-1))` with `z` the primitive `2m`-th root of unity for
/// the bond label `m` — the exact form of `-2cos(pi/m)`.
pub open spec fn schlafli_entry(m: Map<(nat, nat), nat>, i: nat, j: nat) -> Seq<(int, nat, nat)> {
    if i == j {
        int_terms(2)
    } else if m.contains_key(norm_pair(i, j)) {
        let lab = m[norm_pair(i, j)];
        if lab == 3 {
            int_terms(-1)
        } else {
            seq![
                ((-1int, spec_reduce(1, 2 * lab).0, spec_reduce(1, 2 * lab).1)),
                (
                    (
                        -1int,
                        spec_reduce((2 * lab - 1) as nat, 2 * lab).0,
                        spec_reduce((2 * lab - 1) as nat, 2 * lab).1,
                    )
                ),
            ]
        }
    } else {
        Seq::empty()
    }
}

/// The one-way ratchet that classifies from the signs of the leading
/// principal minors: a zero minor lifts the type to at least parabolic, a
/// negative one to hyperbolic.
pub open spec fn type_of_signs(s: Seq<Sign>) -> CoxeterGroupType
    decreases s.len(),
{
    if s.len() == 0 {
        CoxeterGroupType::Elliptic
    } else {
        let rest = type_of_signs(s.drop_last());
        if s.last() == Sign::Negative || rest == CoxeterGroupType::Hyperbolic {
            CoxeterGroupType::Hyperbolic
        } else if s.last() == Sign::Zero || rest == CoxeterGroupType::Parabolic {
            CoxeterGroupType::Parabolic
        } else {
            CoxeterGroupType::Elliptic
        }
    }
}

impl CoxeterDiagram {
    /// The cyclotomic number ring the diagram computes in.
    pub fn cyclotomic_ring(&self) -> (r: CyclotomicRingBase)
        ensures
            r == (CyclotomicRingBase {}),
    {
        CyclotomicRingBase::new()
    }

    /// The matrix ring of the diagram's rank.
    pub fn matrix_ring(&self) -> (r: SquareMatrixRingBase<CyclotomicRingBase>)
        ensures
            r.dimension == self.rank,
    {
        SquareMatrixRingBase::new(CyclotomicRingBase::new(), self.rank)
    }

    /// The Schläfli matrix: every entry pinned to `schlafli_entry`.
    pub fn schlafli_matrix(&self) -> (r: Vec<Vec<Cyclotomic>>)
        requires
            self.wf(),
        ensures
            mat_wf(r@, self.rank as nat),
            forall|i: int, j: int|
                0 <= i < self.rank && 0 <= j < self.rank ==> mat_v(r@)[i][j] == schlafli_entry(
                    self.labeling(),
                    i as nat,
                    j as nat,
                ),
    {
        let n = self.rank;
        let mut m: Vec<Vec<Cyclotomic>> = Vec::new();
        let mut i: usize = 0;
        while i < n
            invariant
                self.wf(),
                n == self.rank,
                i <= n,
                m@.len() == i,
                forall|a: int| 0 <= a < i ==> (#[trigger] m@[a])@.len() == n,
                forall|a: int, b: int|
                    0 <= a < i && 0 <= b < n ==> (#[trigger] m@[a]@[b]).wf() && m@[a]@[b]@
                        == schlafli_entry(self.labeling(), a as nat, b as nat),
            decreases n - i,
        {
            let mut row: Vec<Cyclotomic> = Vec::new();
            let mut j: usize = 0;
            while j < n
                invariant
                    self.wf(),
                    n == self.rank,
                    i < n,
                    j <= n,
                    row@.len() == j,
                    forall|b: int|
                        0 <= b < j ==> (#[trigger] row@[b]).wf() && row@[b]@ == schlafli_entry(
                            self.labeling(),
                            i as nat,
                            b as nat,
                        ),
                decreases n - j,
            {
                let e: Cyclotomic = if i == j {
                    Cyclotomic::from_int(2)
                } else {
                    match self.get_edge(i, j) {
                        None => Cyclotomic::zero(),
                        Some(lab) => {
                            proof {
                                lemma_edges_map_label_ok(
                                    self.edges@,
                                    norm_pair(i as nat, j as nat),
                                );
                            }
                            if lab == 3 {
                                Cyclotomic::from_int(-1)
                            } else {
                                proof {
                                    crate::prufer_group::lemma_reduce_props(1, (2 * lab) as nat);
                                    crate::prufer_group::lemma_reduce_props(
                                        (2 * lab - 1) as nat,
                                        (2 * lab) as nat,
                                    );
                                    crate::cyclotomic::lemma_reduce_order_pub(
                                        1,
                                        (2 * lab - 1) as nat,
                                        (2 * lab) as nat,
                                    );
                                }
                                let g1 = PruferGroup::new(1, 2 * lab);
                                let g2 = PruferGroup::new(2 * lab - 1, 2 * lab);
                                proof {
                                    vstd::arithmetic::div_mod::lemma_small_mod(1, (2 * lab) as nat);
                                    vstd::arithmetic::div_mod::lemma_small_mod(
                                        (2 * lab - 1) as nat,
                                        (2 * lab) as nat,
                                    );
                                }
                                let mut terms: Vec<(i64, PruferGroup)> = Vec::new();
                                terms.push((-1i64, g1));
                                terms.push((-1i64, g2));
                                let c = Cyclotomic::from_terms(terms);
                                proof {
                                    assert(c@ =~= schlafli_entry(
                                        self.labeling(),
                                        i as nat,
                                        j as nat,
                                    ));
                                }
                                c
                            }
                        },
                    }
                };
                row.push(e);
                j += 1;
            }
            m.push(row);
            i += 1;
        }
        m
    }

    /// Classifies a sequence of minor signs by the one-way ratchet.
    pub fn classify_from_signs(signs: &Vec<Sign>) -> (r: CoxeterGroupType)
        ensures
            r == type_of_signs(signs@),
    {
        let mut t = CoxeterGroupType::Elliptic;
        let mut k: usize = 0;
        proof {
            assert(signs@.take(0) =~= Seq::<Sign>::empty());
        }
        while k < signs.len()
            invariant
                k <= signs.len(),
                t == type_of_signs(signs@.take(k as int)),
            decreases signs.len() - k,
        {
            let sg = signs[k];
            proof {
                assert(signs@.take(k + 1).drop_last() =~= signs@.take(k as int));
                assert(signs@.take(k + 1).last() == signs@[k as int]);
            }
            t = match sg {
                Sign::Negative => CoxeterGroupType::Hyperbolic,
                Sign::Zero => match t {
                    CoxeterGroupType::Hyperbolic => CoxeterGroupType::Hyperbolic,
                    _ => CoxeterGroupType::Parabolic,
                },
                Sign::Positive => t,
            };
            k += 1;
        }
        proof {
            assert(signs@.take(signs@.len() as int) =~= signs@);
        }
        t
    }

    /// The exact constant coefficient of a canonical polynomial.
    fn poly_constant_coeff(p: &GradedRing) -> (r: Cyclotomic)
        requires
            p.wf(),
        ensures
            r.wf(),
            r@ == spec_pcoeff0(p@),
    {
        if p.get_terms().len() > 0 && p.get_terms()[0].1 == 0 {
            let c = p.get_terms()[0].0.clone();
            proof {
                assert(p@[0] == (p.terms@[0].0@, p.terms@[0].1 as nat));
                assert(c@ == p@[0].0);
            }
            c
        } else {
            proof {
                if p.terms@.len() > 0 {
                    assert(p@[0] == (p.terms@[0].0@, p.terms@[0].1 as nat));
                }
            }
            Cyclotomic::zero()
        }
    }

    /// Classifies the group: for each leading principal minor of the
    /// Schläfli matrix, decide exact zeroness by the balancer test, take
    /// the strict sign from the fixed-point estimate otherwise, and fold
    /// the signs through the ratchet. The zero pattern of the returned
    /// sign sequence is exact; strict signs come from the numeric estimate.
    #[verifier::rlimit(100)]
    #[verifier::spinoff_prover]
    pub fn coxeter_group_type(&self) -> (r: Result<CoxeterGroupType, CoxeterError>)
        requires
            self.wf(),
            self.rank < usize::MAX,
        ensures
            type_fits(self.labeling(), self.rank as nat) ==> r is Ok,
            r is Ok ==> spec_signs_ok(self.labeling(), self.rank as nat) && r->Ok_0
                == type_of_signs(spec_sign_seq(self.labeling(), self.rank as nat)),
            r is Err ==> r->Err_0 == CoxeterError::AmbiguousSign || r->Err_0
                == CoxeterError::Overflow,
            r is Err && r->Err_0 == CoxeterError::AmbiguousSign ==> exists|k: int|
                0 <= k < self.rank && #[trigger] spec_minor_sign(self.labeling(), k + 1) == Result::<
                    Sign,
                    CoxeterError,
                >::Err(CoxeterError::AmbiguousSign),
    {
        let schlafli = self.schlafli_matrix();
        let mut signs: Vec<Sign> = Vec::new();
        let mut n: usize = 1;
        while n <= self.rank
            invariant
                self.wf(),
                1 <= n <= self.rank + 1,
                mat_wf(schlafli@, self.rank as nat),
                forall|a: int, b: int|
                    0 <= a < self.rank && 0 <= b < self.rank ==> mat_v(schlafli@)[a][b]
                        == schlafli_entry(self.labeling(), a as nat, b as nat),
                signs@.len() == n - 1,
                forall|k: int|
                    0 <= k < n - 1 ==> #[trigger] spec_minor_sign(self.labeling(), k + 1) is Ok
                        && signs@[k] == spec_minor_sign(self.labeling(), k + 1)->Ok_0,
                self.rank < usize::MAX,
            decreases self.rank + 1 - n,
        {
            let mut pm: Vec<Vec<GradedRing>> = Vec::new();
            let mut i: usize = 0;
            while i < n
                invariant
                    self.wf(),
                    1 <= n <= self.rank,
                    mat_wf(schlafli@, self.rank as nat),
                    forall|a: int, b: int|
                        0 <= a < self.rank && 0 <= b < self.rank ==> mat_v(schlafli@)[a][b]
                            == schlafli_entry(self.labeling(), a as nat, b as nat),
                    i <= n,
                    pm@.len() == i,
                    forall|a: int| 0 <= a < i ==> (#[trigger] pm@[a])@.len() == n,
                    forall|a: int, b: int|
                        0 <= a < i && 0 <= b < n ==> (#[trigger] pm@[a]@[b]).wf() && pm@[a]@[b]@
                            == poly_const(schlafli_entry(self.labeling(), a as nat, b as nat)),
                decreases n - i,
            {
                let mut prow: Vec<GradedRing> = Vec::new();
                let mut j: usize = 0;
                while j < n
                    invariant
                        self.wf(),
                        1 <= n <= self.rank,
                        mat_wf(schlafli@, self.rank as nat),
                        forall|a: int, b: int|
                            0 <= a < self.rank && 0 <= b < self.rank ==> mat_v(schlafli@)[a][b]
                                == schlafli_entry(self.labeling(), a as nat, b as nat),
                        i < n,
                        j <= n,
                        prow@.len() == j,
                        forall|b: int|
                            0 <= b < j ==> (#[trigger] prow@[b]).wf() && prow@[b]@ == poly_const(
                                schlafli_entry(self.labeling(), i as nat, b as nat),
                            ),
                    decreases n - j,
                {
                    let c = schlafli[i][j].clone();
                    proof {
                        assert(c@ == mat_v(schlafli@)[i as int][j as int]);
                    }
                    prow.push(GradedRing::constant(c));
                    j += 1;
                }
                pm.push(prow);
                i += 1;
            }
            proof {
                assert(pmat_v(pm@) =~~= minor_mat(self.labeling(), n as int));
            }
            let det = match crate::square_matrix::determinant(n, &pm) {
                Ok(det) => det,
                Err(e) => {
                    proof {
                        assert(!crate::square_matrix::det_full_fits(minor_mat(
                            self.labeling(),
                            n as int,
                        )));
                    }
                    return Err(e);
                },
            };
            let c = Self::poly_constant_coeff(&det);
            proof {
                assert(c@ == minor_det_coeff(self.labeling(), n as int));
                assert(tv(c.terms@) == c@);
            }
            let z = match c.is_zero() {
                Ok(z) => z,
                Err(e) => {
                    proof {
                        assert(!crate::cyclotomic::zero_test_fits(minor_det_coeff(
                            self.labeling(),
                            n as int,
                        )));
                    }
                    return Err(e);
                },
            };
            let sg: Sign = if z {
                proof {
                    assert(spec_minor_sign(self.labeling(), n as int) == Result::<
                        Sign,
                        CoxeterError,
                    >::Ok(Sign::Zero));
                }
                Sign::Zero
            } else {
                proof {
                    assert(spec_minor_sign(self.labeling(), n as int)
                        == crate::numeric::spec_sign_est(c@));
                }
                match sign_estimate(c.get_terms()) {
                    Ok(Sign::Zero) => {
                        proof {
                            crate::numeric::lemma_sign_est_strict(c@);
                            assert(false);
                        }
                        return Err(CoxeterError::AmbiguousSign);
                    },
                    Ok(sg) => {
                        proof {
                            assert(spec_minor_sign(self.labeling(), n as int) == Result::<
                                Sign,
                                CoxeterError,
                            >::Ok(sg));
                        }
                        sg
                    },
                    Err(e) => {
                        proof {
                            crate::numeric::lemma_sign_est_kinds(c@);
                            assert(spec_minor_sign(self.labeling(), n as int) == Result::<
                                Sign,
                                CoxeterError,
                            >::Err(e));
                            if e == CoxeterError::AmbiguousSign {
                                assert(0 <= n - 1 < self.rank && spec_minor_sign(
                                    self.labeling(),
                                    (n - 1) + 1,
                                ) == Result::<Sign, CoxeterError>::Err(
                                    CoxeterError::AmbiguousSign,
                                ));
                            }
                        }
                        return Err(e);
                    },
                }
            };
            signs.push(sg);
            n += 1;
        }
        let t = Self::classify_from_signs(&signs);
        proof {
            assert(signs@ =~= spec_sign_seq(self.labeling(), self.rank as nat));
        }
        Ok(t)
    }
}

/// The exact constant coefficient of a polynomial's view.
pub open spec fn spec_pcoeff0(p: Seq<(Seq<(int, nat, nat)>, nat)>) -> Seq<(int, nat, nat)> {
    if p.len() > 0 && p[0].1 == 0 {
        p[0].0
    } else {
        Seq::empty()
    }
}

/// The leading principal minor of size `n` of the Schläfli matrix, with
/// entries embedded as constant polynomials.
pub open spec fn minor_mat(m: Map<(nat, nat), nat>, n: int) -> Seq<
    Seq<Seq<(Seq<(int, nat, nat)>, nat)>>,
> {
    Seq::new(n as nat, |i: int| Seq::new(n as nat, |j: int| poly_const(schlafli_entry(m, i as nat, j as nat))))
}

/// The constant coefficient of the determinant of the leading principal
/// minor of size `n`.
pub open spec fn minor_det_coeff(m: Map<(nat, nat), nat>, n: int) -> Seq<(int, nat, nat)> {
    spec_pcoeff0(det_v(minor_mat(m, n)))
}

/// The sign the classification assigns to the leading principal minor of
/// size `n`: exactly zero under the balancer test, else whatever the
/// fixed-point estimate decides — a function of the labeling alone.
pub open spec fn spec_minor_sign(m: Map<(nat, nat), nat>, n: int) -> Result<Sign, CoxeterError> {
    let c = minor_det_coeff(m, n);
    if spec_is_zero(c) {
        Result::Ok(Sign::Zero)
    } else {
        crate::numeric::spec_sign_est(c)
    }
}

/// Every leading principal minor gets a definite sign.
pub open spec fn spec_signs_ok(m: Map<(nat, nat), nat>, rank: nat) -> bool {
    forall|k: int| 0 <= k < rank ==> #[trigger] spec_minor_sign(m, k + 1) is Ok
}

/// Every machine-range condition of the classification holds and every
/// nonzero minor gets a definite estimated sign.
pub open spec fn type_fits(m: Map<(nat, nat), nat>, rank: nat) -> bool {
    forall|n: int|
        1 <= n <= rank ==> {
            &&& crate::square_matrix::det_full_fits(#[trigger] minor_mat(m, n))
            &&& crate::cyclotomic::zero_test_fits(minor_det_coeff(m, n))
            &&& spec_minor_sign(m, n) is Ok
        }
}

/// The sign sequence of the leading principal minors.
pub open spec fn spec_sign_seq(m: Map<(nat, nat), nat>, rank: nat) -> Seq<Sign> {
    Seq::new(rank, |k: int| spec_minor_sign(m, k + 1)->Ok_0)
}

/// The strict upper-triangular part of a matrix view.
pub open spec fn upper_v(m: Seq<Seq<Seq<(int, nat, nat)>>>, n: nat) -> Seq<Seq<Seq<(int, nat, nat)>>> {
    Seq::new(
        n,
        |i: int|
            Seq::new(
                n,
                |j: int|
                    if i < j {
                        m[i][j]
                    } else {
                        Seq::empty()
                    },
            ),
    )
}

/// The strict lower-triangular part of a matrix view.
pub open spec fn lower_v(m: Seq<Seq<Seq<(int, nat, nat)>>>, n: nat) -> Seq<Seq<Seq<(int, nat, nat)>>> {
    Seq::new(
        n,
        |i: int|
            Seq::new(
                n,
                |j: int|
                    if i > j {
                        m[i][j]
                    } else {
                        Seq::empty()
                    },
            ),
    )
}

/// The `k`-th power of a matrix view (right-multiplying).
pub open spec fn mat_pow_v(m: Seq<Seq<Seq<(int, nat, nat)>>>, n: nat, k: nat) -> Seq<
    Seq<Seq<(int, nat, nat)>>,
>
    decreases k,
{
    if k == 0 {
        crate::square_matrix::mat_one_v(n)
    } else {
        crate::square_matrix::mat_mul_v(mat_pow_v(m, n, (k - 1) as nat), m, n)
    }
}

/// The sum of the first `k` powers of a matrix view.
pub open spec fn mat_pow_sum_v(m: Seq<Seq<Seq<(int, nat, nat)>>>, n: nat, k: nat) -> Seq<
    Seq<Seq<(int, nat, nat)>>,
>
    decreases k,
{
    if k == 0 {
        crate::square_matrix::mat_zero_v(n)
    } else {
        crate::square_matrix::mat_add_v(mat_pow_sum_v(m, n, (k - 1) as nat), mat_pow_v(m, n, (k - 1) as nat), n)
    }
}

/// The Coxeter element of a Schläfli matrix view `S` with strict parts
/// `U` and `L`: `-(I + L) * sum of the first `n` powers of `-U``, the
/// product of the simple reflections in node order.
pub open spec fn coxeter_element_v(sv: Seq<Seq<Seq<(int, nat, nat)>>>, n: nat) -> Seq<
    Seq<Seq<(int, nat, nat)>>,
> {
    let nu = crate::square_matrix::mat_neg_v(upper_v(sv, n), n);
    crate::square_matrix::mat_mul_v(
        crate::square_matrix::mat_neg_v(
            crate::square_matrix::mat_add_v(crate::square_matrix::mat_one_v(n), lower_v(sv, n), n),
            n,
        ),
        mat_pow_sum_v(nu, n, n),
        n,
    )
}

/// Every machine-range condition of the geometric power sum holds.
pub open spec fn geom_fits(nu: Seq<Seq<Seq<(int, nat, nat)>>>, n: nat, k: nat) -> bool
    decreases k,
{
    if k == 0 {
        true
    } else {
        &&& geom_fits(nu, n, (k - 1) as nat)
        &&& crate::square_matrix::mat_add_fits(
            mat_pow_sum_v(nu, n, (k - 1) as nat),
            mat_pow_v(nu, n, (k - 1) as nat),
            n,
        )
        &&& crate::square_matrix::mat_mul_fits(mat_pow_v(nu, n, (k - 1) as nat), nu, n)
    }
}

/// A fitting geometric sum fits at every step.
pub proof fn lemma_geom_fits_at(nu: Seq<Seq<Seq<(int, nat, nat)>>>, n: nat, kk: nat, k: nat)
    requires
        geom_fits(nu, n, kk),
        k < kk,
    ensures
        crate::square_matrix::mat_add_fits(
            mat_pow_sum_v(nu, n, k),
            mat_pow_v(nu, n, k),
            n,
        ),
        crate::square_matrix::mat_mul_fits(mat_pow_v(nu, n, k), nu, n),
    decreases kk,
{
    if k + 1 < kk {
        lemma_geom_fits_at(nu, n, (kk - 1) as nat, k);
    }
}

/// Every machine-range condition of the Coxeter-element computation holds.
pub open spec fn elt_fits(sv: Seq<Seq<Seq<(int, nat, nat)>>>, n: nat) -> bool {
    let nu = crate::square_matrix::mat_neg_v(upper_v(sv, n), n);
    &&& geom_fits(nu, n, n)
    &&& crate::square_matrix::mat_add_fits(
        crate::square_matrix::mat_one_v(n),
        lower_v(sv, n),
        n,
    )
    &&& crate::square_matrix::mat_mul_fits(
        crate::square_matrix::mat_neg_v(
            crate::square_matrix::mat_add_v(
                crate::square_matrix::mat_one_v(n),
                lower_v(sv, n),
                n,
            ),
            n,
        ),
        mat_pow_sum_v(nu, n, n),
        n,
    )
}

impl CoxeterDiagram {
    /// The Coxeter element: the product of all simple reflections in node
    /// order, computed from the Schläfli matrix by the nilpotent inverse
    /// of its strict upper part.
    #[verifier::rlimit(100)]
    #[verifier::spinoff_prover]
    pub fn coxeter_element(&self) -> (r: Result<Vec<Vec<Cyclotomic>>, CoxeterError>)
        requires
            self.wf(),
        ensures
            r is Err ==> r->Err_0 == CoxeterError::Overflow,
            elt_fits(schlafli_v(self.labeling(), self.rank as nat), self.rank as nat) ==> r is Ok,
            r is Ok ==> mat_wf(r->Ok_0@, self.rank as nat) && mat_v(r->Ok_0@) == coxeter_element_v(
                schlafli_v(self.labeling(), self.rank as nat),
                self.rank as nat,
            ),
    {
        let n = self.rank;
        let mr = self.matrix_ring();
        let schlafli = self.schlafli_matrix();
        proof {
            assert(mat_v(schlafli@) =~~= schlafli_v(self.labeling(), n as nat));
        }
        // strict triangular parts
        let mut upper: Vec<Vec<Cyclotomic>> = Vec::new();
        let mut lower: Vec<Vec<Cyclotomic>> = Vec::new();
        let mut i: usize = 0;
        while i < n
            invariant
                self.wf(),
                n == self.rank,
                mat_wf(schlafli@, n as nat),
                i <= n,
                upper@.len() == i,
                lower@.len() == i,
                forall|a: int|
                    0 <= a < i ==> (#[trigger] upper@[a])@.len() == n && lower@[a]@.len() == n,
                forall|a: int, b: int|
                    0 <= a < i && 0 <= b < n ==> (#[trigger] upper@[a]@[b]).wf() && upper@[a]@[b]@
                        == upper_v(mat_v(schlafli@), n as nat)[a][b],
                forall|a: int, b: int|
                    0 <= a < i && 0 <= b < n ==> (#[trigger] lower@[a]@[b]).wf() && lower@[a]@[b]@
                        == lower_v(mat_v(schlafli@), n as nat)[a][b],
            decreases n - i,
        {
            let mut urow: Vec<Cyclotomic> = Vec::new();
            let mut lrow: Vec<Cyclotomic> = Vec::new();
            let mut j: usize = 0;
            while j < n
                invariant
                    self.wf(),
                    n == self.rank,
                    mat_wf(schlafli@, n as nat),
                    i < n,
                    j <= n,
                    urow@.len() == j,
                    lrow@.len() == j,
                    forall|b: int|
                        0 <= b < j ==> (#[trigger] urow@[b]).wf() && urow@[b]@ == upper_v(
                            mat_v(schlafli@),
                            n as nat,
                        )[i as int][b],
                    forall|b: int|
                        0 <= b < j ==> (#[trigger] lrow@[b]).wf() && lrow@[b]@ == lower_v(
                            mat_v(schlafli@),
                            n as nat,
                        )[i as int][b],
                decreases n - j,
            {
                if i < j {
                    let c = schlafli[i][j].clone();
                    proof {
                        assert(c@ == mat_v(schlafli@)[i as int][j as int]);
                    }
                    urow.push(c);
                    lrow.push(Cyclotomic::zero());
                } else if i > j {
                    let c = schlafli[i][j].clone();
                    proof {
                        assert(c@ == mat_v(schlafli@)[i as int][j as int]);
                    }
                    urow.push(Cyclotomic::zero());
                    lrow.push(c);
                } else {
                    urow.push(Cyclotomic::zero());
                    lrow.push(Cyclotomic::zero());
                }
                j += 1;
            }
            upper.push(urow);
            lower.push(lrow);
            i += 1;
        }
        proof {
            assert forall|a: int| 0 <= a < n implies (#[trigger] lower@[a])@.len() == n
                && upper@[a]@.len() == n by {
                assert(upper@[a]@.len() == n);
            }
            assert forall|a: int, b: int| 0 <= a < n && 0 <= b < n implies mat_v(lower@)[a][b]
                == lower_v(mat_v(schlafli@), n as nat)[a][b] && mat_v(upper@)[a][b] == upper_v(
                mat_v(schlafli@),
                n as nat,
            )[a][b] by {
                assert(upper@[a]@.len() == n);
                assert(mat_v(lower@)[a][b] == lower@[a]@[b]@);
                assert(mat_v(upper@)[a][b] == upper@[a]@[b]@);
            }
            assert(mat_wf(lower@, n as nat));
            assert(mat_wf(upper@, n as nat));
            assert(mat_v(upper@) =~~= upper_v(mat_v(schlafli@), n as nat));
            assert(mat_v(lower@) =~~= lower_v(mat_v(schlafli@), n as nat));
        }
        let nu = mr.negate(&upper);
        let ghost nuv = mat_v(nu@);
        let ghost lv = mat_v(lower@);
        let ghost sv = mat_v(schlafli@);
        let ghost sv0 = schlafli_v(self.labeling(), n as nat);
        proof {
            assert(sv =~~= sv0);
            assert(nuv == crate::square_matrix::mat_neg_v(upper_v(sv0, n as nat), n as nat));
            assert(lv == lower_v(sv0, n as nat));
        }
        // geometric sum of powers of the nilpotent part
        let mut acc = mr.zero();
        let mut pow = mr.one();
        proof {
            assert(mat_v(acc@) =~~= crate::square_matrix::mat_zero_v(n as nat));
            assert(mat_v(pow@) =~~= crate::square_matrix::mat_one_v(n as nat));
            assert(mat_v(acc@) =~~= mat_pow_sum_v(nuv, n as nat, 0));
            assert(mat_v(pow@) =~~= mat_pow_v(nuv, n as nat, 0));
        }
        let mut k: usize = 0;
        while k < n
            invariant
                n == self.rank,
                k <= n,
                mat_wf(nu@, n as nat),
                nuv == mat_v(nu@),
                mat_wf(lower@, n as nat),
                lv == mat_v(lower@),
                mat_wf(acc@, n as nat),
                mat_wf(pow@, n as nat),
                mat_v(acc@) == mat_pow_sum_v(nuv, n as nat, k as nat),
                mat_v(pow@) == mat_pow_v(nuv, n as nat, k as nat),
                nuv == crate::square_matrix::mat_neg_v(upper_v(sv0, n as nat), n as nat),
                lv == lower_v(sv0, n as nat),
                sv0 == schlafli_v(self.labeling(), n as nat),
            decreases n - k,
        {
            let mr2 = SquareMatrixRingBase::new(CyclotomicRingBase::new(), n);
            let acc2 = match mr2.add(&acc, &pow) {
                Ok(v) => v,
                Err(e) => {
                    proof {
                        if elt_fits(sv0, n as nat) {
                            lemma_geom_fits_at(nuv, n as nat, n as nat, k as nat);
                        }
                    }
                    return Err(e);
                },
            };
            let pow2 = match mr2.mul(&pow, &nu) {
                Ok(v) => v,
                Err(e) => {
                    proof {
                        if elt_fits(sv0, n as nat) {
                            lemma_geom_fits_at(nuv, n as nat, n as nat, k as nat);
                        }
                    }
                    return Err(e);
                },
            };
            acc = acc2;
            pow = pow2;
            k += 1;
        }
        // -(I + L) * acc
        let mr3 = SquareMatrixRingBase::new(CyclotomicRingBase::new(), n);
        let ident = mr3.one();
        proof {
            assert(mat_v(ident@) =~~= crate::square_matrix::mat_one_v(n as nat));
        }
        let il = match mr3.add(&ident, &lower) {
            Ok(v) => v,
            Err(e) => {
                proof {
                    assert(mat_v(ident@) =~~= crate::square_matrix::mat_one_v(n as nat));
                }
                return Err(e);
            },
        };
        let nil = mr3.negate(&il);
        proof {
            assert(mat_v(il@) =~~= crate::square_matrix::mat_add_v(
                crate::square_matrix::mat_one_v(n as nat),
                lower_v(sv0, n as nat),
                n as nat,
            ));
        }
        mr3.mul(&nil, &acc)
    }
}

/// The Schläfli matrix view of a labeling at a given rank.
pub open spec fn schlafli_v(m: Map<(nat, nat), nat>, n: nat) -> Seq<Seq<Seq<(int, nat, nat)>>> {
    Seq::new(n, |i: int| Seq::new(n, |j: int| schlafli_entry(m, i as nat, j as nat)))
}

/// The `k`-th power of a matrix view, anchored at the matrix itself.
pub open spec fn mat_pow1_v(m: Seq<Seq<Seq<(int, nat, nat)>>>, n: nat, k: nat) -> Seq<
    Seq<Seq<(int, nat, nat)>>,
>
    decreases k,
{
    if k <= 1 {
        m
    } else {
        crate::square_matrix::mat_mul_v(mat_pow1_v(m, n, (k - 1) as nat), m, n)
    }
}

/// The product of a list of degrees.
pub open spec fn prod_u64(s: Seq<u64>) -> nat
    decreases s.len(),
{
    if s.len() == 0 {
        1
    } else {
        prod_u64(s.drop_last()) * (s.last() as nat)
    }
}

/// Copies a square cyclotomic matrix.
fn clone_mat(m: &Vec<Vec<Cyclotomic>>, n: usize) -> (r: Vec<Vec<Cyclotomic>>)
    requires
        mat_wf(m@, n as nat),
    ensures
        mat_wf(r@, n as nat),
        mat_v(r@) == mat_v(m@),
{
    let mut out: Vec<Vec<Cyclotomic>> = Vec::new();
    let mut i: usize = 0;
    while i < n
        invariant
            mat_wf(m@, n as nat),
            i <= n,
            out@.len() == i,
            forall|a: int| 0 <= a < i ==> (#[trigger] out@[a])@.len() == n,
            forall|a: int, b: int|
                0 <= a < i && 0 <= b < n ==> (#[trigger] out@[a]@[b]).wf() && out@[a]@[b]@ == mat_v(
                    m@,
                )[a][b],
        decreases n - i,
    {
        let mut row: Vec<Cyclotomic> = Vec::new();
        let mut j: usize = 0;
        while j < n
            invariant
                mat_wf(m@, n as nat),
                i < n,
                j <= n,
                row@.len() == j,
                forall|b: int|
                    0 <= b < j ==> (#[trigger] row@[b]).wf() && row@[b]@ == mat_v(m@)[i as int][b],
            decreases n - j,
        {
            let c = m[i][j].clone();
            proof {
                assert(c@ == mat_v(m@)[i as int][j as int]);
            }
            row.push(c);
            j += 1;
        }
        out.push(row);
        i += 1;
    }
    proof {
        assert forall|a: int| 0 <= a < n implies (#[trigger] mat_v(out@)[a]).len() == n by {
            assert(out@[a]@.len() == n);
        }
        assert forall|a: int, b: int| 0 <= a < n && 0 <= b < n implies mat_v(out@)[a][b] == mat_v(
            m@,
        )[a][b] by {
            assert(out@[a]@.len() == n);
            assert(mat_v(out@)[a][b] == out@[a]@[b]@);
        }
        assert(mat_v(out@) =~~= mat_v(m@));
    }
    out
}

/// One step of synthetic division by the monic linear factor `x - root`:
/// the quotient coefficients of `a[k..]`, highest exponent last.
fn synth_rec(a: &Vec<Cyclotomic>, root: &Cyclotomic, k: usize) -> (r: Result<
    Vec<Cyclotomic>,
    CoxeterError,
>)
    requires
        root.wf(),
        a@.len() >= 2,
        k <= a@.len() - 2,
        forall|m: int| 0 <= m < a@.len() ==> (#[trigger] a@[m]).wf(),
    ensures
        r is Err ==> r->Err_0 == CoxeterError::Overflow,
        synth_fits(dv(a@), root@, k as int) ==> r is Ok,
        r is Ok ==> r->Ok_0@.len() == a@.len() - 1 - k && (forall|m: int|
            0 <= m < r->Ok_0@.len() ==> (#[trigger] r->Ok_0@[m]).wf() && r->Ok_0@[m]@ == synth_b(
                dv(a@),
                root@,
                k + m,
            )),
    decreases a.len() - k,
{
    proof {
        assert(dv(a@).len() == a@.len());
    }
    if k == a.len() - 2 {
        let mut v: Vec<Cyclotomic> = Vec::new();
        let c = a[a.len() - 1].clone();
        proof {
            assert(c@ == a@[a@.len() - 1]@);
            assert(a@[a@.len() - 1].wf());
            assert(c.wf()) by {
                assert(c.terms@ == a@[a@.len() - 1].terms@);
            }
            assert(dv(a@)[a@.len() - 1] == a@[a@.len() - 1]@);
        }
        v.push(c);
        Ok(v)
    } else {
        let mut rest = match synth_rec(a, root, k + 1) {
            Ok(rest) => rest,
            Err(e) => {
                return Err(e);
            },
        };
        let t = match root.mul(&rest[0]) {
            Ok(t) => t,
            Err(e) => {
                proof {
                    assert(!crate::cyclotomic::cmul_fits(root@, synth_b(dv(a@), root@, k + 1)));
                }
                return Err(e);
            },
        };
        let h = match a[k + 1].add(&t) {
            Ok(h) => h,
            Err(e) => {
                proof {
                    assert(dv(a@)[k + 1] == a@[k + 1]@);
                    assert(!crate::cyclotomic::merge_fits(
                        dv(a@)[k + 1],
                        crate::cyclotomic::cmul(root@, synth_b(dv(a@), root@, k + 1)),
                    ));
                }
                return Err(e);
            },
        };
        proof {
            assert(dv(a@)[k + 1] == a@[k + 1]@);
            assert(h@ == synth_b(dv(a@), root@, k as int));
        }
        rest.insert(0, h);
        Ok(rest)
    }
}

impl CoxeterDiagram {
    /// The full group invariants: the Coxeter number as the exact
    /// multiplicative order of the Coxeter element under the balancer
    /// equality, within the caller's bound; the exponents collected by
    /// exact trial division of the characteristic polynomial by the linear
    /// factors at each root of unity; degrees one above the exponents; the
    /// group order as the product of the degrees.
    #[verifier::rlimit(100)]
    #[verifier::spinoff_prover]
    pub fn coxeter_group_info(&self, order_bound: u64) -> (r: Result<CoxeterGroupInfo, CoxeterError>)
        requires
            self.wf(),
            0 < order_bound <= GRADE_DENOM_MAX,
        ensures
            r is Ok ==> ({
                let h = r->Ok_0.coxeter_number;
                let cv = coxeter_element_v(
                    schlafli_v(self.labeling(), self.rank as nat),
                    self.rank as nat,
                );
                &&& 1 <= h <= order_bound
                &&& crate::square_matrix::mat_is_one_op(
                    mat_pow1_v(cv, self.rank as nat, h as nat),
                    self.rank as nat,
                )
                &&& forall|k: nat|
                    1 <= k < h ==> !crate::square_matrix::mat_is_one_op(
                        #[trigger] mat_pow1_v(cv, self.rank as nat, k),
                        self.rank as nat,
                    )
                &&& r->Ok_0.degrees@.len() == r->Ok_0.exponents@.len()
                &&& forall|m: int|
                    0 <= m < r->Ok_0.exponents@.len() ==> (#[trigger] r->Ok_0.degrees@[m])
                        == r->Ok_0.exponents@[m] + 1 && r->Ok_0.exponents@[m] < h
                &&& forall|q1: int, q2: int|
                    0 <= q1 < q2 < r->Ok_0.exponents@.len() ==> (#[trigger] r->Ok_0.exponents@[q1])
                        <= (#[trigger] r->Ok_0.exponents@[q2])
                &&& r->Ok_0.exponents@.map_values(|x: u64| x as nat) == spec_info_exps(
                    self.labeling(),
                    self.rank as nat,
                    h as nat,
                )
                &&& r->Ok_0.order as nat == prod_u64(r->Ok_0.degrees@)
            }),
            r is Err && r->Err_0 == CoxeterError::BoundExceeded ==> forall|m: nat|
                1 <= m <= order_bound ==> !crate::square_matrix::mat_is_one_op(
                    #[trigger] mat_pow1_v(
                        coxeter_element_v(
                            schlafli_v(self.labeling(), self.rank as nat),
                            self.rank as nat,
                        ),
                        self.rank as nat,
                        m,
                    ),
                    self.rank as nat,
                ),
            forall|hh: nat|
                #[trigger] info_succeeds(
                    self.labeling(),
                    self.rank as nat,
                    order_bound as nat,
                    hh,
                ) ==> r is Ok,
    {
        let n = self.rank;
        let c = match self.coxeter_element() {
            Ok(c) => c,
            Err(e) => {
                proof {
                    assert(!elt_fits(schlafli_v(self.labeling(), n as nat), n as nat));
                }
                return Err(e);
            },
        };
        let ghost cv = mat_v(c@);
        proof {
            assert(cv == coxeter_element_v(schlafli_v(self.labeling(), n as nat), n as nat));
        }
        let mr = SquareMatrixRingBase::new(CyclotomicRingBase::new(), n);
        // multiplicative order of the Coxeter element, within the bound
        let mut pow = clone_mat(&c, n);
        let mut k: u64 = 1;
        let mut h: u64 = 0;
        while k <= order_bound
            invariant_except_break
                h == 0,
            invariant
                n == self.rank,
                mat_wf(c@, n as nat),
                cv == mat_v(c@),
                cv == coxeter_element_v(schlafli_v(self.labeling(), n as nat), n as nat),
                self.wf(),
                mr.dimension == n,
                mat_wf(pow@, n as nat),
                order_bound <= GRADE_DENOM_MAX,
                1 <= k <= order_bound + 1,
                mat_v(pow@) == mat_pow1_v(cv, n as nat, k as nat),
                forall|m: nat|
                    1 <= m < k ==> !crate::square_matrix::mat_is_one_op(
                        #[trigger] mat_pow1_v(cv, n as nat, m),
                        n as nat,
                    ),
            ensures
                h != 0 ==> 1 <= h <= order_bound && crate::square_matrix::mat_is_one_op(
                    mat_pow1_v(cv, n as nat, h as nat),
                    n as nat,
                ) && (forall|m: nat|
                    1 <= m < h ==> !crate::square_matrix::mat_is_one_op(
                        #[trigger] mat_pow1_v(cv, n as nat, m),
                        n as nat,
                    )),
                h == 0 ==> forall|m: nat|
                    1 <= m <= order_bound ==> !crate::square_matrix::mat_is_one_op(
                        #[trigger] mat_pow1_v(cv, n as nat, m),
                        n as nat,
                    ),
            decreases order_bound + 1 - k,
        {
            let one = match mr.is_one(&pow) {
                Ok(b) => b,
                Err(e) => {
                    proof {
                        assert(!crate::square_matrix::mat_isone_fits(
                            mat_pow1_v(cv, n as nat, k as nat),
                            n as nat,
                        ));
                    }
                    return Err(e);
                },
            };
            if one {
                h = k;
                break ;
            }
            let pow2 = match mr.mul(&pow, &c) {
                Ok(v) => v,
                Err(e) => {
                    proof {
                        assert(!crate::square_matrix::mat_mul_fits(
                            mat_pow1_v(cv, n as nat, k as nat),
                            cv,
                            n as nat,
                        ));
                    }
                    return Err(e);
                },
            };
            pow = pow2;
            k += 1;
        }
        if h == 0 {
            return Err(CoxeterError::BoundExceeded);
        }
        // characteristic polynomial of the Coxeter element
        let mut pm: Vec<Vec<GradedRing>> = Vec::new();
        let mut i: usize = 0;
        while i < n
            invariant
                n == self.rank,
                self.wf(),
                mat_wf(c@, n as nat),
                cv == mat_v(c@),
                cv == coxeter_element_v(schlafli_v(self.labeling(), n as nat), n as nat),
                1 <= h <= order_bound <= GRADE_DENOM_MAX,
                crate::square_matrix::mat_is_one_op(mat_pow1_v(cv, n as nat, h as nat), n as nat),
                forall|k2: nat|
                    1 <= k2 < h ==> !crate::square_matrix::mat_is_one_op(
                        #[trigger] mat_pow1_v(cv, n as nat, k2),
                        n as nat,
                    ),
                i <= n,
                pm@.len() == i,
                forall|a: int| 0 <= a < i ==> (#[trigger] pm@[a])@.len() == n,
                forall|a: int, b: int|
                    0 <= a < i && 0 <= b < n ==> (#[trigger] pm@[a]@[b]).wf() && pm@[a]@[b]@
                        == charmat_v(cv, n as nat)[a][b],
            decreases n - i,
        {
            let mut prow: Vec<GradedRing> = Vec::new();
            let mut j: usize = 0;
            while j < n
                invariant
                    n == self.rank,
                    mat_wf(c@, n as nat),
                    cv == mat_v(c@),
                    i < n,
                    j <= n,
                    prow@.len() == j,
                    forall|b: int|
                        0 <= b < j ==> (#[trigger] prow@[b]).wf() && prow@[b]@ == charmat_v(
                            cv,
                            n as nat,
                        )[i as int][b],
                decreases n - j,
            {
                let negc = c[i][j].neg();
                proof {
                    assert(c@[i as int]@[j as int]@ == mat_v(c@)[i as int][j as int]);
                    assert(negc@ == crate::cyclotomic::cneg(cv[i as int][j as int]));
                }
                let cp = GradedRing::constant(negc);
                let e: GradedRing = if i == j {
                    let mono = GradedRing::monomial(1);
                    proof {
                        crate::graded_ring::lemma_pwf_coeffs(cp@);
                        crate::graded_ring::lemma_pwf_coeffs(mono@);
                    }
                    match cp.add_impl(&mono) {
                        Ok(v) => v,
                        Err(e) => {
                            proof {
                                if cp@.len() > 0 {
                                    assert(cp@[0].1 == 0nat && mono@[0].1 == 1nat);
                                    assert(cp@.drop_first() =~= Seq::<(
                                        Seq<(int, nat, nat)>,
                                        nat,
                                    )>::empty());
                                    assert(crate::graded_ring::pmerge_fits(
                                        cp@.drop_first(),
                                        mono@,
                                    ));
                                    assert(crate::graded_ring::pmerge_fits(cp@, mono@));
                                } else {
                                    assert(crate::graded_ring::pmerge_fits(cp@, mono@));
                                }
                                assert(false);
                            }
                            return Err(e);
                        },
                    }
                } else {
                    cp
                };
                prow.push(e);
                j += 1;
            }
            pm.push(prow);
            i += 1;
        }
        proof {
            assert forall|a: int| 0 <= a < n implies (#[trigger] pmat_v(pm@)[a]).len() == n by {
                assert(pm@[a]@.len() == n);
            }
            assert forall|a: int, b: int| 0 <= a < n && 0 <= b < n implies pmat_v(pm@)[a][b]
                == charmat_v(cv, n as nat)[a][b] by {
                assert(pm@[a]@.len() == n);
                assert(pmat_v(pm@)[a][b] == pm@[a]@[b]@);
            }
            assert(pmat_v(pm@) =~~= charmat_v(cv, n as nat));
        }
        let charpoly = match crate::square_matrix::determinant(n, &pm) {
            Ok(p) => p,
            Err(e) => {
                proof {
                    assert(!crate::square_matrix::det_full_fits(charmat_v(cv, n as nat)));
                }
                return Err(e);
            },
        };
        let ghost cp_v = charpoly@;
        proof {
            assert(cp_v == det_v(charmat_v(cv, n as nat)));
        }
        // dense coefficient vector of the characteristic polynomial
        let deg: u64 = if charpoly.get_terms().len() == 0 {
            0
        } else {
            charpoly.get_terms()[charpoly.get_terms().len() - 1].1
        };
        proof {
            if charpoly.terms@.len() > 0 {
                assert(cp_v.last() == (charpoly.terms@[cp_v.len() - 1].0@, charpoly.terms@[cp_v.len()
                    - 1].1 as nat));
            }
            assert(deg as nat + 1 == dense_len(cp_v));
        }
        if deg > 0xFFFF {
            proof {
                assert(dense_len(det_v(charmat_v(cv, n as nat))) > 0x10000);
            }
            return Err(CoxeterError::Overflow);
        }
        let dlen: usize = (deg as usize) + 1;
        let mut dense: Vec<Cyclotomic> = Vec::new();
        let mut m: usize = 0;
        while m < dlen
            invariant
                n == self.rank,
                self.wf(),
                cv == coxeter_element_v(schlafli_v(self.labeling(), n as nat), n as nat),
                1 <= h <= order_bound <= GRADE_DENOM_MAX,
                crate::square_matrix::mat_is_one_op(mat_pow1_v(cv, n as nat, h as nat), n as nat),
                forall|k2: nat|
                    1 <= k2 < h ==> !crate::square_matrix::mat_is_one_op(
                        #[trigger] mat_pow1_v(cv, n as nat, k2),
                        n as nat,
                    ),
                charpoly.wf(),
                cp_v == charpoly@,
                cp_v == det_v(charmat_v(cv, n as nat)),
                dlen == dense_len(cp_v),
                m <= dlen,
                dense@.len() == m,
                forall|q: int|
                    0 <= q < m ==> (#[trigger] dense@[q]).wf() && dense@[q]@
                        == Seq::<(int, nat, nat)>::empty(),
            decreases dlen - m,
        {
            dense.push(Cyclotomic::zero());
            m += 1;
        }
        proof {
            assert(cp_v.take(0) =~= Seq::<(Seq<(int, nat, nat)>, nat)>::empty());
        }
        let mut t: usize = 0;
        while t < charpoly.get_terms().len()
            invariant
                n == self.rank,
                self.wf(),
                cv == coxeter_element_v(schlafli_v(self.labeling(), n as nat), n as nat),
                1 <= h <= order_bound <= GRADE_DENOM_MAX,
                crate::square_matrix::mat_is_one_op(mat_pow1_v(cv, n as nat, h as nat), n as nat),
                forall|k2: nat|
                    1 <= k2 < h ==> !crate::square_matrix::mat_is_one_op(
                        #[trigger] mat_pow1_v(cv, n as nat, k2),
                        n as nat,
                    ),
                charpoly.wf(),
                cp_v == charpoly@,
                cp_v == det_v(charmat_v(cv, n as nat)),
                t <= charpoly.terms@.len(),
                dense@.len() == dlen,
                dlen == dense_len(cp_v),
                forall|q: int|
                    0 <= q < dlen ==> (#[trigger] dense@[q]).wf() && dense@[q]@ == pcoeff_at_exp(
                        cp_v.take(t as int),
                        q as nat,
                    ),
            decreases charpoly.terms@.len() - t,
        {
            let (coeff, e) = (charpoly.get_terms()[t].0.clone(), charpoly.get_terms()[t].1);
            proof {
                assert(charpoly@[t as int] == (charpoly.terms@[t as int].0@, charpoly.terms@[
                t as int].1 as nat));
                assert(cyc_wf(charpoly@[t as int].0));
                assert(coeff.wf()) by {
                    assert(coeff.terms@ == charpoly.terms@[t as int].0.terms@);
                }
                // the exponent fits the dense vector: later exponents only grow
                if t + 1 < cp_v.len() {
                    crate::graded_ring::lemma_pexp_chain(cp_v, t as int, cp_v.len() - 1);
                }
                assert(cp_v[t as int].1 < dlen);
                // earlier exponents are strictly smaller, so the slot is fresh
                assert forall|m2: int| 0 <= m2 < cp_v.take(t as int).len() implies (
                #[trigger] cp_v.take(t as int)[m2]).1 != e as nat by {
                    crate::graded_ring::lemma_pexp_chain(cp_v, m2, t as int);
                }
                lemma_has_exp_none(cp_v.take(t as int), e as nat);
                assert(cp_v.take(t + 1) =~= cp_v.take(t as int).push(cp_v[t as int]));
            }
            let ghost dpre = dense@;
            if e < dlen as u64 {
                dense.set(e as usize, coeff);
            }
            proof {
                assert forall|q: int| 0 <= q < dlen implies (#[trigger] dense@[q]).wf()
                    && dense@[q]@ == pcoeff_at_exp(cp_v.take(t + 1), q as nat) by {
                    lemma_pcoeff_push(cp_v.take(t as int), cp_v[t as int], q as nat);
                    if q == e as int {
                        assert(dense@[q] == coeff);
                    } else {
                        assert(dense@[q] == dpre[q]);
                        if !has_exp(cp_v.take(t as int), q as nat) {
                            lemma_pcoeff_absent(cp_v.take(t as int), q as nat);
                        }
                    }
                }
            }
            t += 1;
        }
        proof {
            assert(cp_v.take(cp_v.len() as int) =~= cp_v);
            assert forall|q: int| 0 <= q < dlen implies dv(dense@)[q] == dense_of(
                cp_v,
                dlen as nat,
            )[q] by {
                assert(dv(dense@)[q] == dense@[q]@);
            }
            assert(dv(dense@) =~= dense_of(cp_v, dlen as nat));
        }
        // trial division by each linear factor at a root of unity
        let ghost exps_target = spec_info_exps(self.labeling(), n as nat, h as nat);
        let ghost dense0 = dv(dense@);
        proof {
            assert(exps_target == spec_exps(dv(dense@), h as nat, 0));
            assert(dense0 == dense_of(
                det_v(charmat_v(cv, n as nat)),
                dense_len(det_v(charmat_v(cv, n as nat))),
            ));
        }
        let mut exponents: Vec<u64> = Vec::new();
        let mut e: u64 = 0;
        proof {
            assert(exponents@.map_values(|x: u64| x as nat) =~= Seq::<nat>::empty());
        }
        while e < h
            invariant
                self.wf(),
                n == self.rank,
                cv == coxeter_element_v(schlafli_v(self.labeling(), n as nat), n as nat),
                crate::square_matrix::mat_is_one_op(mat_pow1_v(cv, n as nat, h as nat), n as nat),
                forall|k2: nat|
                    1 <= k2 < h ==> !crate::square_matrix::mat_is_one_op(
                        #[trigger] mat_pow1_v(cv, n as nat, k2),
                        n as nat,
                    ),
                dense0 == dense_of(
                    det_v(charmat_v(cv, n as nat)),
                    dense_len(det_v(charmat_v(cv, n as nat))),
                ),
                0 < h <= order_bound <= GRADE_DENOM_MAX,
                e <= h,
                dense@.len() >= 1,
                forall|q: int| 0 <= q < dense@.len() ==> (#[trigger] dense@[q]).wf(),
                forall|q: int| 0 <= q < exponents@.len() ==> (#[trigger] exponents@[q]) < h,
                forall|q: int|
                    0 <= q < exponents@.len() ==> (#[trigger] exponents@[q]) <= e,
                forall|q1: int, q2: int|
                    0 <= q1 < q2 < exponents@.len() ==> (#[trigger] exponents@[q1]) <= (
                    #[trigger] exponents@[q2]),
                exps_target == exponents@.map_values(|x: u64| x as nat) + spec_exps(
                    dv(dense@),
                    h as nat,
                    e as nat,
                ),
                exps_fits(dense0, h as nat, 0) ==> exps_fits(dv(dense@), h as nat, e as nat),
            decreases h - e,
        {
            let root = Cyclotomic::root_of_unity(h, e);
            let ghost estart = dv(dense@);
            let ghost exp_start = exponents@;
            proof {
                assert(root@ == crate::cyclotomic::root_terms(h as nat, e as nat));
            }
            loop
                invariant
                    root.wf(),
                    root@ == crate::cyclotomic::root_terms(h as nat, e as nat),
                    self.wf(),
                    n == self.rank,
                    cv == coxeter_element_v(schlafli_v(self.labeling(), n as nat), n as nat),
                    crate::square_matrix::mat_is_one_op(
                        mat_pow1_v(cv, n as nat, h as nat),
                        n as nat,
                    ),
                    forall|k2: nat|
                        1 <= k2 < h ==> !crate::square_matrix::mat_is_one_op(
                            #[trigger] mat_pow1_v(cv, n as nat, k2),
                            n as nat,
                        ),
                    dense0 == dense_of(
                        det_v(charmat_v(cv, n as nat)),
                        dense_len(det_v(charmat_v(cv, n as nat))),
                    ),
                    exps_fits(dense0, h as nat, 0) ==> exps_fits(estart, h as nat, e as nat),
                    peel_fits(estart, root@) ==> peel_fits(dv(dense@), root@),
                    order_bound <= GRADE_DENOM_MAX,
                    h <= order_bound,
                    dense@.len() >= 1,
                    forall|q: int| 0 <= q < dense@.len() ==> (#[trigger] dense@[q]).wf(),
                    0 < h <= GRADE_DENOM_MAX,
                    e < h,
                    forall|q: int| 0 <= q < exponents@.len() ==> (#[trigger] exponents@[q]) < h,
                    forall|q: int|
                        0 <= q < exponents@.len() ==> (#[trigger] exponents@[q]) <= e,
                    forall|q1: int, q2: int|
                        0 <= q1 < q2 < exponents@.len() ==> (#[trigger] exponents@[q1]) <= (
                        #[trigger] exponents@[q2]),
                    exponents@.len() >= exp_start.len(),
                    exponents@.take(exp_start.len() as int) == exp_start,
                    forall|q: int|
                        exp_start.len() <= q < exponents@.len() ==> (#[trigger] exponents@[q]) == e,
                    spec_peel(estart, root@).0 == exponents@.len() - exp_start.len() + spec_peel(
                        dv(dense@),
                        root@,
                    ).0,
                    spec_peel(estart, root@).1 == spec_peel(dv(dense@), root@).1,
                ensures
                    root@ == crate::cyclotomic::root_terms(h as nat, e as nat),
                    dense@.len() >= 1,
                    forall|q: int| 0 <= q < dense@.len() ==> (#[trigger] dense@[q]).wf(),
                    forall|q: int| 0 <= q < exponents@.len() ==> (#[trigger] exponents@[q]) < h,
                    forall|q: int|
                        0 <= q < exponents@.len() ==> (#[trigger] exponents@[q]) <= e,
                    forall|q1: int, q2: int|
                        0 <= q1 < q2 < exponents@.len() ==> (#[trigger] exponents@[q1]) <= (
                        #[trigger] exponents@[q2]),
                    exponents@.len() >= exp_start.len(),
                    exponents@.take(exp_start.len() as int) == exp_start,
                    forall|q: int|
                        exp_start.len() <= q < exponents@.len() ==> (#[trigger] exponents@[q]) == e,
                    spec_peel(estart, root@) == ((exponents@.len() - exp_start.len()) as nat, dv(
                        dense@,
                    )),
                decreases dense@.len(),
            {
                if dense.len() < 2 {
                    proof {
                        assert(spec_peel(dv(dense@), root@) == (0nat, dv(dense@)));
                    }
                    break ;
                }
                let quot = match synth_rec(&dense, &root, 0) {
                    Ok(q) => q,
                    Err(err) => {
                        proof {
                            assert(!peel_fits(dv(dense@), root@));
                            assert forall|hh: nat| #[trigger] info_succeeds(
                                self.labeling(),
                                n as nat,
                                order_bound as nat,
                                hh,
                            ) implies false by {
                                lemma_info_hh_unique(
                                    self.labeling(),
                                    n as nat,
                                    order_bound as nat,
                                    hh,
                                    h as nat,
                                );
                            }
                        }
                        return Err(err);
                    },
                };
                let ghost dpeel = dv(dense@);
                let ghost squot = Seq::new((dpeel.len() - 1) as nat, |m2: int| synth_b(dpeel, root@, m2));
                proof {
                    assert forall|m2: int| 0 <= m2 < quot@.len() implies dv(quot@)[m2]
                        == squot[m2] by {
                        assert(dv(quot@)[m2] == quot@[m2]@);
                    }
                    assert(dv(quot@) =~= squot);
                    assert(dv(dense@)[0] == dense@[0]@);
                }
                let t0 = match root.mul(&quot[0]) {
                    Ok(t0) => t0,
                    Err(err) => {
                        proof {
                            assert(!peel_fits(dpeel, root@));
                            assert forall|hh: nat| #[trigger] info_succeeds(
                                self.labeling(),
                                n as nat,
                                order_bound as nat,
                                hh,
                            ) implies false by {
                                lemma_info_hh_unique(
                                    self.labeling(),
                                    n as nat,
                                    order_bound as nat,
                                    hh,
                                    h as nat,
                                );
                            }
                        }
                        return Err(err);
                    },
                };
                let rem = match dense[0].add(&t0) {
                    Ok(rem) => rem,
                    Err(err) => {
                        proof {
                            assert(!peel_fits(dpeel, root@));
                            assert forall|hh: nat| #[trigger] info_succeeds(
                                self.labeling(),
                                n as nat,
                                order_bound as nat,
                                hh,
                            ) implies false by {
                                lemma_info_hh_unique(
                                    self.labeling(),
                                    n as nat,
                                    order_bound as nat,
                                    hh,
                                    h as nat,
                                );
                            }
                        }
                        return Err(err);
                    },
                };
                let isz = match rem.is_zero() {
                    Ok(b) => b,
                    Err(err) => {
                        proof {
                            assert(rem@ == crate::cyclotomic::merge(
                                dpeel[0],
                                crate::cyclotomic::cmul(root@, squot[0]),
                            ));
                            assert(!peel_fits(dpeel, root@));
                            assert forall|hh: nat| #[trigger] info_succeeds(
                                self.labeling(),
                                n as nat,
                                order_bound as nat,
                                hh,
                            ) implies false by {
                                lemma_info_hh_unique(
                                    self.labeling(),
                                    n as nat,
                                    order_bound as nat,
                                    hh,
                                    h as nat,
                                );
                            }
                        }
                        return Err(err);
                    },
                };
                proof {
                    assert(rem@ == crate::cyclotomic::merge(
                        dpeel[0],
                        crate::cyclotomic::cmul(root@, squot[0]),
                    ));
                }
                if isz {
                    let ghost exp_pre = exponents@;
                    dense = quot;
                    exponents.push(e);
                    proof {
                        assert(spec_peel(dpeel, root@) == ((spec_peel(squot, root@).0 + 1) as nat,
                            spec_peel(squot, root@).1));
                        assert(exponents@.take(exp_start.len() as int) =~= exp_start);
                    }
                } else {
                    proof {
                        assert(spec_peel(dv(dense@), root@) == (0nat, dv(dense@)));
                    }
                    break ;
                }
            }
            proof {
                let ghost cnt = (exponents@.len() - exp_start.len()) as nat;
                assert(spec_exps(estart, h as nat, e as nat) == Seq::new(cnt, |i2: int| e as nat)
                    + spec_exps(dv(dense@), h as nat, (e + 1) as nat));
                assert forall|q: int| #![trigger exponents@[q]] 0 <= q < exponents@.len() implies
                    exponents@.map_values(|x: u64| x as nat)[q] == (exp_start.map_values(
                    |x: u64| x as nat,
                ) + Seq::new(cnt, |i2: int| e as nat))[q] by {
                    if q < exp_start.len() {
                        assert(exponents@[q] == exponents@.take(exp_start.len() as int)[q]);
                    }
                }
                assert(exponents@.map_values(|x: u64| x as nat) =~= exp_start.map_values(
                    |x: u64| x as nat,
                ) + Seq::new(cnt, |i2: int| e as nat));
                assert(exps_target =~= exponents@.map_values(|x: u64| x as nat) + spec_exps(
                    dv(dense@),
                    h as nat,
                    (e + 1) as nat,
                ));
            }
            e += 1;
        }
        proof {
            assert(spec_exps(dv(dense@), h as nat, h as nat) =~= Seq::<nat>::empty());
            assert(exps_target =~= exponents@.map_values(|x: u64| x as nat));
        }
        // degrees and order
        let mut degrees: Vec<u64> = Vec::new();
        let mut order: u64 = 1;
        let mut q: usize = 0;
        proof {
            assert(prod_u64(degrees@.take(0)) == 1) by {
                assert(degrees@.take(0) =~= Seq::<u64>::empty());
            }
        }
        proof {
            assert(nat_deg_prod(exps_target.take(0)) == 1) by {
                assert(exps_target.take(0) =~= Seq::<nat>::empty());
            }
        }
        while q < exponents.len()
            invariant
                q <= exponents.len(),
                degrees@.len() == q,
                self.wf(),
                cv == coxeter_element_v(schlafli_v(self.labeling(), n as nat), n as nat),
                crate::square_matrix::mat_is_one_op(mat_pow1_v(cv, n as nat, h as nat), n as nat),
                forall|k2: nat|
                    1 <= k2 < h ==> !crate::square_matrix::mat_is_one_op(
                        #[trigger] mat_pow1_v(cv, n as nat, k2),
                        n as nat,
                    ),
                dense0 == dense_of(
                    det_v(charmat_v(cv, n as nat)),
                    dense_len(det_v(charmat_v(cv, n as nat))),
                ),
                exps_target == spec_exps(dense0, h as nat, 0),
                1 <= h <= order_bound,
                forall|m2: int| 0 <= m2 < exponents@.len() ==> (#[trigger] exponents@[m2]) < h,
                h <= GRADE_DENOM_MAX,
                forall|m2: int|
                    0 <= m2 < q ==> (#[trigger] degrees@[m2]) == exponents@[m2] + 1,
                forall|q1: int, q2: int|
                    0 <= q1 < q2 < exponents@.len() ==> (#[trigger] exponents@[q1]) <= (
                    #[trigger] exponents@[q2]),
                exponents@.map_values(|x: u64| x as nat) == spec_info_exps(
                    self.labeling(),
                    n as nat,
                    h as nat,
                ),
                exponents@.map_values(|x: u64| x as nat) == exps_target,
                n == self.rank,
                order as nat == prod_u64(degrees@),
                order as nat == nat_deg_prod(exps_target.take(q as int)),
            decreases exponents.len() - q,
        {
            let d: u64 = exponents[q] + 1;
            proof {
                assert(exps_target[q as int] == exponents@[q as int] as nat);
                assert(exps_target.take(q + 1).drop_last() =~= exps_target.take(q as int));
                assert(exps_target.take(q + 1).last() == exps_target[q as int]);
            }
            let order2 = match order.checked_mul(d) {
                Some(v) => v,
                None => {
                    proof {
                        assert(!deg_prod_fits(exps_target.take(q + 1)));
                        if deg_prod_fits(exps_target) {
                            lemma_deg_prod_fits_take(exps_target, q + 1);
                        }
                        assert forall|hh: nat| #[trigger] info_succeeds(
                            self.labeling(),
                            n as nat,
                            order_bound as nat,
                            hh,
                        ) implies false by {
                            lemma_info_hh_unique(
                                self.labeling(),
                                n as nat,
                                order_bound as nat,
                                hh,
                                h as nat,
                            );
                        }
                    }
                    return Err(CoxeterError::Overflow);
                },
            };
            let ghost dpre = degrees@;
            degrees.push(d);
            proof {
                assert(degrees@.drop_last() =~= dpre);
            }
            order = order2;
            q += 1;
        }
        Ok(CoxeterGroupInfo { coxeter_number: h, order, exponents, degrees })
    }
}

/// The reading of an edge list handed to the isomorphism oracle.
pub open spec fn edge_seq_v(s: Seq<((usize, usize), u64)>) -> Seq<((nat, nat), nat)> {
    s.map_values(|e: ((usize, usize), u64)| ((e.0.0 as nat, e.0.1 as nat), e.1 as nat))
}

/// What the isomorphism test returns on two graphs given by rank and edge
/// list: a function of its arguments alone.
pub uninterp spec fn is_iso_of(r0: nat, e0: Seq<((nat, nat), nat)>, r1: nat, e1: Seq<((nat, nat), nat)>) -> bool;

/// What the subgraph-isomorphism test returns: whether the first graph
/// embeds in the second, as a function of its arguments alone.
pub uninterp spec fn is_subgraph_iso_of(
    r0: nat,
    e0: Seq<((nat, nat), nat)>,
    r1: nat,
    e1: Seq<((nat, nat), nat)>,
) -> bool;

/// Relies on petgraph::algo::is_isomorphic_matching over the graphs built
/// from the two rank and edge lists, matching node and edge weights by
/// equality; deterministic in its arguments.
#[verifier::external_body]
fn graphs_isomorphic(r0: usize, e0: &Vec<((usize, usize), u64)>, r1: usize, e1: &Vec<
    ((usize, usize), u64),
>) -> (r: bool)
    requires
        r0 < 0xFFFF_FFFFusize,
        r1 < 0xFFFF_FFFFusize,
        e0@.len() < 0xFFFF_FFFFusize,
        e1@.len() < 0xFFFF_FFFFusize,
        forall|k: int| 0 <= k < e0@.len() ==> (#[trigger] e0@[k]).0.0 < r0 && e0@[k].0.1 < r0,
        forall|k: int| 0 <= k < e1@.len() ==> (#[trigger] e1@[k]).0.0 < r1 && e1@[k].0.1 < r1,
    ensures
        r == is_iso_of(r0 as nat, edge_seq_v(e0@), r1 as nat, edge_seq_v(e1@)),
{
    let mut g0 = petgraph::graph::UnGraph::<(), u64>::new_undirected();
    for _ in 0..r0 {
        g0.add_node(());
    }
    for &((i, j), w) in e0.iter() {
        g0.add_edge(petgraph::graph::NodeIndex::new(i), petgraph::graph::NodeIndex::new(j), w);
    }
    let mut g1 = petgraph::graph::UnGraph::<(), u64>::new_undirected();
    for _ in 0..r1 {
        g1.add_node(());
    }
    for &((i, j), w) in e1.iter() {
        g1.add_edge(petgraph::graph::NodeIndex::new(i), petgraph::graph::NodeIndex::new(j), w);
    }
    petgraph::algo::is_isomorphic_matching(&g0, &g1, PartialEq::eq, PartialEq::eq)
}

/// Relies on petgraph::algo::is_isomorphic_subgraph_matching over the
/// graphs built from the two rank and edge lists: whether the first embeds
/// in the second; deterministic in its arguments.
#[verifier::external_body]
fn graphs_subgraph_isomorphic(r0: usize, e0: &Vec<((usize, usize), u64)>, r1: usize, e1: &Vec<
    ((usize, usize), u64),
>) -> (r: bool)
    requires
        r0 < 0xFFFF_FFFFusize,
        r1 < 0xFFFF_FFFFusize,
        e0@.len() < 0xFFFF_FFFFusize,
        e1@.len() < 0xFFFF_FFFFusize,
        forall|k: int| 0 <= k < e0@.len() ==> (#[trigger] e0@[k]).0.0 < r0 && e0@[k].0.1 < r0,
        forall|k: int| 0 <= k < e1@.len() ==> (#[trigger] e1@[k]).0.0 < r1 && e1@[k].0.1 < r1,
    ensures
        r == is_subgraph_iso_of(r0 as nat, edge_seq_v(e0@), r1 as nat, edge_seq_v(e1@)),
{
    let mut g0 = petgraph::graph::UnGraph::<(), u64>::new_undirected();
    for _ in 0..r0 {
        g0.add_node(());
    }
    for &((i, j), w) in e0.iter() {
        g0.add_edge(petgraph::graph::NodeIndex::new(i), petgraph::graph::NodeIndex::new(j), w);
    }
    let mut g1 = petgraph::graph::UnGraph::<(), u64>::new_undirected();
    for _ in 0..r1 {
        g1.add_node(());
    }
    for &((i, j), w) in e1.iter() {
        g1.add_edge(petgraph::graph::NodeIndex::new(i), petgraph::graph::NodeIndex::new(j), w);
    }
    petgraph::algo::is_isomorphic_subgraph_matching(&g0, &g1, PartialEq::eq, PartialEq::eq)
}

/// Two stored diagrams are the same graph datum.
pub open spec fn same_graph(a: &CoxeterDiagram, b: &CoxeterDiagram) -> bool {
    a.rank == b.rank && edge_seq_v(a.edges@) == edge_seq_v(b.edges@)
}

impl Clone for CoxeterDiagram {
    /// An exact copy of the diagram.
    fn clone(&self) -> (r: Self)
        ensures
            r.rank == self.rank,
            r.edges@ == self.edges@,
    {
        let mut edges: Vec<((usize, usize), u64)> = Vec::new();
        let mut k: usize = 0;
        while k < self.edges.len()
            invariant
                k <= self.edges.len(),
                edges@ == self.edges@.take(k as int),
            decreases self.edges.len() - k,
        {
            edges.push(self.edges[k]);
            proof {
                assert(edges@ =~= self.edges@.take(k + 1));
            }
            k += 1;
        }
        proof {
            assert(self.edges@.take(self.edges@.len() as int) =~= self.edges@);
        }
        CoxeterDiagram { rank: self.rank, edges }
    }
}

impl CoxeterDiagram {
    /// Whether this diagram is isomorphic to the other, through the
    /// external graph-isomorphism oracle.
    pub fn is_isomorphic(&self, other: &Self) -> (r: bool)
        requires
            self.wf(),
            other.wf(),
            self.rank < 0xFFFF_FFFFusize,
            other.rank < 0xFFFF_FFFFusize,
            self.edges@.len() < 0xFFFF_FFFFusize,
            other.edges@.len() < 0xFFFF_FFFFusize,
        ensures
            r == is_iso_of(
                self.rank as nat,
                edge_seq_v(self.edges@),
                other.rank as nat,
                edge_seq_v(other.edges@),
            ),
    {
        graphs_isomorphic(self.rank, &self.edges, other.rank, &other.edges)
    }

    /// Whether this diagram embeds in the other as a subgraph, through the
    /// external oracle.
    pub fn is_isomorphic_subgraph(&self, other: &Self) -> (r: bool)
        requires
            self.wf(),
            other.wf(),
            self.rank < 0xFFFF_FFFFusize,
            other.rank < 0xFFFF_FFFFusize,
            self.edges@.len() < 0xFFFF_FFFFusize,
            other.edges@.len() < 0xFFFF_FFFFusize,
        ensures
            r == is_subgraph_iso_of(
                self.rank as nat,
                edge_seq_v(self.edges@),
                other.rank as nat,
                edge_seq_v(other.edges@),
            ),
    {
        graphs_subgraph_isomorphic(self.rank, &self.edges, other.rank, &other.edges)
    }

    /// Builds the standard diagram of a named family. Accepts exactly the
    /// ranks each family is defined for: `A` from rank one up, `B`, `C`,
    /// `G` and `H` from two, `D` and `F` from three, `E` from four, and
    /// `I2` for labels from three up to the label bound.
    pub fn from_family(value: CoxeterDiagramType) -> (r: Result<Self, CoxeterError>)
        ensures
            r is Ok <==> family_ok(value),
            r is Ok ==> r->Ok_0.wf() && r->Ok_0.rank == family_rank(value)
                && r->Ok_0.labeling() == edges_map(family_edges(value)),
    {
        match value {
            CoxeterDiagramType::A(rank) => {
                if rank < 1 {
                    return Err(CoxeterError::InvalidConstruction);
                }
                let mut labels: Vec<((usize, usize), u64)> = Vec::new();
                let mut k: usize = 0;
                while k + 1 < rank
                    invariant
                        rank >= 1,
                        k <= rank - 1,
                        labels@ == Seq::new(
                            k as nat,
                            |m: int| ((m as usize, (m + 1) as usize), 3u64),
                        ),
                        forall|m: int|
                            0 <= m < labels@.len() ==> edge_ok(rank as nat, #[trigger] labels@[m]),
                    decreases rank - k,
                {
                    labels.push(((k, k + 1), 3));
                    proof {
                        assert(labels@ =~= Seq::new(
                            (k + 1) as nat,
                            |m: int| ((m as usize, (m + 1) as usize), 3u64),
                        ));
                    }
                    k += 1;
                }
                proof {
                    assert(labels@ =~= family_edges(value));
                }
                Self::new(rank, labels)
            },
            CoxeterDiagramType::B(rank) | CoxeterDiagramType::C(rank) => {
                if rank < 2 {
                    return Err(CoxeterError::InvalidConstruction);
                }
                Self::chain_with_tail_label(rank, 4)
            },
            CoxeterDiagramType::G(rank) => {
                if rank < 2 {
                    return Err(CoxeterError::InvalidConstruction);
                }
                Self::chain_with_tail_label(rank, 6)
            },
            CoxeterDiagramType::H(rank) => {
                if rank < 2 {
                    return Err(CoxeterError::InvalidConstruction);
                }
                Self::chain_with_tail_label(rank, 5)
            },
            CoxeterDiagramType::D(rank) => {
                if rank < 3 {
                    return Err(CoxeterError::InvalidConstruction);
                }
                let mut labels: Vec<((usize, usize), u64)> = Vec::new();
                let mut k: usize = 0;
                while k + 1 < rank - 2
                    invariant
                        rank >= 3,
                        k <= rank - 3,
                        labels@ == Seq::new(
                            k as nat,
                            |m: int| ((m as usize, (m + 1) as usize), 3u64),
                        ),
                        forall|m: int|
                            0 <= m < labels@.len() ==> edge_ok(rank as nat, #[trigger] labels@[m]),
                    decreases rank - k,
                {
                    labels.push(((k, k + 1), 3));
                    proof {
                        assert(labels@ =~= Seq::new(
                            (k + 1) as nat,
                            |m: int| ((m as usize, (m + 1) as usize), 3u64),
                        ));
                    }
                    k += 1;
                }
                proof {
                    assert(k == rank - 3);
                }
                labels.push(((rank - 3, rank - 2), 3));
                labels.push(((rank - 3, rank - 1), 3));
                proof {
                    assert(labels@ =~= family_edges(value));
                }
                Self::new(rank, labels)
            },
            CoxeterDiagramType::E(rank) => {
                if rank < 4 {
                    return Err(CoxeterError::InvalidConstruction);
                }
                let mut labels: Vec<((usize, usize), u64)> = Vec::new();
                let mut k: usize = 2;
                while k + 1 < rank
                    invariant
                        rank >= 4,
                        2 <= k <= rank - 1,
                        labels@ == Seq::new(
                            (k - 2) as nat,
                            |m: int| (((m + 2) as usize, (m + 3) as usize), 3u64),
                        ),
                        forall|m: int|
                            0 <= m < labels@.len() ==> edge_ok(rank as nat, #[trigger] labels@[m]),
                    decreases rank - k,
                {
                    labels.push(((k, k + 1), 3));
                    proof {
                        assert(labels@ =~= Seq::new(
                            (k - 1) as nat,
                            |m: int| (((m + 2) as usize, (m + 3) as usize), 3u64),
                        ));
                    }
                    k += 1;
                }
                proof {
                    assert(k == rank - 1);
                }
                labels.push(((0, 2), 3));
                labels.push(((1, 3), 3));
                proof {
                    assert(labels@ =~= family_edges(value));
                }
                Self::new(rank, labels)
            },
            CoxeterDiagramType::F(rank) => {
                if rank < 3 {
                    return Err(CoxeterError::InvalidConstruction);
                }
                let mut labels: Vec<((usize, usize), u64)> = Vec::new();
                let mut k: usize = 0;
                while k + 1 < rank - 2
                    invariant
                        rank >= 3,
                        k <= rank - 3,
                        labels@ == Seq::new(
                            k as nat,
                            |m: int| ((m as usize, (m + 1) as usize), 3u64),
                        ),
                        forall|m: int|
                            0 <= m < labels@.len() ==> edge_ok(rank as nat, #[trigger] labels@[m]),
                    decreases rank - k,
                {
                    labels.push(((k, k + 1), 3));
                    proof {
                        assert(labels@ =~= Seq::new(
                            (k + 1) as nat,
                            |m: int| ((m as usize, (m + 1) as usize), 3u64),
                        ));
                    }
                    k += 1;
                }
                proof {
                    assert(k == rank - 3);
                }
                labels.push(((rank - 3, rank - 2), 4));
                labels.push(((rank - 2, rank - 1), 3));
                proof {
                    assert(labels@ =~= family_edges(value));
                }
                Self::new(rank, labels)
            },
            CoxeterDiagramType::I2(label) => {
                if label < 3 || label > LABEL_MAX {
                    return Err(CoxeterError::InvalidConstruction);
                }
                let mut labels: Vec<((usize, usize), u64)> = Vec::new();
                labels.push(((0, 1), label));
                proof {
                    assert(labels@ =~= family_edges(value));
                }
                Self::new(2, labels)
            },
        }
    }

    /// A chain of unlabeled bonds whose last bond carries `label`.
    fn chain_with_tail_label(rank: usize, label: u64) -> (r: Result<Self, CoxeterError>)
        requires
            rank >= 2,
            3 <= label <= LABEL_MAX,
        ensures
            r is Ok,
            r->Ok_0.wf(),
            r->Ok_0.rank == rank,
            r->Ok_0.labeling() == edges_map(chain_edges(rank, label)),
    {
        let mut labels: Vec<((usize, usize), u64)> = Vec::new();
        let mut k: usize = 0;
        while k + 1 < rank - 1
            invariant
                rank >= 2,
                k <= rank - 2,
                labels@ == Seq::new(k as nat, |m: int| ((m as usize, (m + 1) as usize), 3u64)),
                forall|m: int|
                    0 <= m < labels@.len() ==> edge_ok(rank as nat, #[trigger] labels@[m]),
            decreases rank - k,
        {
            labels.push(((k, k + 1), 3));
            proof {
                assert(labels@ =~= Seq::new(
                    (k + 1) as nat,
                    |m: int| ((m as usize, (m + 1) as usize), 3u64),
                ));
            }
            k += 1;
        }
        proof {
            assert(k == rank - 2);
        }
        labels.push(((rank - 2, rank - 1), label));
        proof {
            assert(labels@ =~= chain_edges(rank, label));
        }
        Self::new(rank, labels)
    }
}

/// The standard edge list of each named family: a chain of unlabeled
/// bonds, with the family's marked bond at the tail (`B`, `C`, `F`, `G`,
/// `H`), a fork at the tail (`D`), the two short branch arms (`E`), or the
/// single labeled bond (`I2`).
pub open spec fn family_edges(value: CoxeterDiagramType) -> Seq<((usize, usize), u64)> {
    match value {
        CoxeterDiagramType::A(rank) => Seq::new(
            (rank - 1) as nat,
            |m: int| ((m as usize, (m + 1) as usize), 3u64),
        ),
        CoxeterDiagramType::B(rank) => chain_edges(rank, 4),
        CoxeterDiagramType::C(rank) => chain_edges(rank, 4),
        CoxeterDiagramType::G(rank) => chain_edges(rank, 6),
        CoxeterDiagramType::H(rank) => chain_edges(rank, 5),
        CoxeterDiagramType::D(rank) => Seq::new(
            (rank - 3) as nat,
            |m: int| ((m as usize, (m + 1) as usize), 3u64),
        ) + seq![
            ((((rank - 3) as usize, (rank - 2) as usize), 3u64)),
            ((((rank - 3) as usize, (rank - 1) as usize), 3u64)),
        ],
        CoxeterDiagramType::E(rank) => Seq::new(
            (rank - 3) as nat,
            |m: int| (((m + 2) as usize, (m + 3) as usize), 3u64),
        ) + seq![(((0usize, 2usize), 3u64)), (((1usize, 3usize), 3u64))],
        CoxeterDiagramType::F(rank) => Seq::new(
            (rank - 3) as nat,
            |m: int| ((m as usize, (m + 1) as usize), 3u64),
        ) + seq![
            ((((rank - 3) as usize, (rank - 2) as usize), 4u64)),
            ((((rank - 2) as usize, (rank - 1) as usize), 3u64)),
        ],
        CoxeterDiagramType::I2(label) => seq![(((0usize, 1usize), label))],
    }
}

/// The chain of unlabeled bonds whose last bond carries `tail`.
pub open spec fn chain_edges(rank: usize, tail: u64) -> Seq<((usize, usize), u64)> {
    Seq::new((rank - 2) as nat, |m: int| ((m as usize, (m + 1) as usize), 3u64)) + seq![
        ((((rank - 2) as usize, (rank - 1) as usize), tail)),
    ]
}

/// The ranks each named family accepts.
pub open spec fn family_ok(value: CoxeterDiagramType) -> bool {
    match value {
        CoxeterDiagramType::A(rank) => rank >= 1,
        CoxeterDiagramType::B(rank) => rank >= 2,
        CoxeterDiagramType::C(rank) => rank >= 2,
        CoxeterDiagramType::D(rank) => rank >= 3,
        CoxeterDiagramType::E(rank) => rank >= 4,
        CoxeterDiagramType::F(rank) => rank >= 3,
        CoxeterDiagramType::G(rank) => rank >= 2,
        CoxeterDiagramType::H(rank) => rank >= 2,
        CoxeterDiagramType::I2(label) => 3 <= label <= LABEL_MAX,
    }
}

/// The rank of a named family's diagram.
pub open spec fn family_rank(value: CoxeterDiagramType) -> usize {
    match value {
        CoxeterDiagramType::A(rank) => rank,
        CoxeterDiagramType::B(rank) => rank,
        CoxeterDiagramType::C(rank) => rank,
        CoxeterDiagramType::D(rank) => rank,
        CoxeterDiagramType::E(rank) => rank,
        CoxeterDiagramType::F(rank) => rank,
        CoxeterDiagramType::G(rank) => rank,
        CoxeterDiagramType::H(rank) => rank,
        CoxeterDiagramType::I2(_) => 2,
    }
}

/// No two entries of the list are isomorphic, in either orientation of
/// the oracle.
pub open spec fn pairwise_non_iso(v: Seq<(CoxeterDiagram, CoxeterGroupType)>) -> bool {
    forall|k1: int, k2: int|
        0 <= k1 < k2 < v.len() ==> !is_iso_of(
            (#[trigger] v[k2]).0.rank as nat,
            edge_seq_v(v[k2].0.edges@),
            (#[trigger] v[k1]).0.rank as nat,
            edge_seq_v(v[k1].0.edges@),
        ) && !is_iso_of(
            v[k1].0.rank as nat,
            edge_seq_v(v[k1].0.edges@),
            v[k2].0.rank as nat,
            edge_seq_v(v[k2].0.edges@),
        )
}

/// A tree-shaped edge list on `rank` nodes: exactly one edge leads from
/// each node after the first to some smaller node, so the graph is a
/// connected acyclic spanning tree.
pub open spec fn tree_shaped(s: Seq<((usize, usize), u64)>, rank: nat) -> bool {
    &&& s.len() == rank - 1
    &&& forall|k: int| 0 <= k < s.len() ==> (#[trigger] s[k]).0.0 < s[k].0.1 < rank
    &&& forall|k1: int, k2: int|
        0 <= k1 < k2 < s.len() ==> (#[trigger] s[k1]).0.1 != (#[trigger] s[k2]).0.1
}

/// Every listed result is, as a graph datum, one of the visited diagrams.
pub open spec fn linked_to_visited(
    out: Seq<(CoxeterDiagram, CoxeterGroupType)>,
    visited: Seq<CoxeterDiagram>,
) -> bool {
    forall|k: int|
        0 <= k < out.len() ==> exists|m: int|
            0 <= m < visited.len() && same_graph(&(#[trigger] out[k]).0, &visited[m])
}

/// Every listed type is faithful: hyperbolic entries may come from the
/// subgraph shortcut, the single-node diagram is elliptic by definition,
/// and every other entry carries exactly the classification of its diagram.
pub open spec fn type_faithful(v: Seq<(CoxeterDiagram, CoxeterGroupType)>) -> bool {
    forall|k: int|
        0 <= k < v.len() ==> {
            |||(#[trigger] v[k]).1 == CoxeterGroupType::Hyperbolic
            ||| v[k].0.rank == 1 && v[k].1 == CoxeterGroupType::Elliptic
            ||| spec_signs_ok(v[k].0.labeling(), v[k].0.rank as nat) && v[k].1 == type_of_signs(
                spec_sign_seq(v[k].0.labeling(), v[k].0.rank as nat),
            )
        }
}

/// No two diagrams of the list are isomorphic, in either orientation.
pub open spec fn pairwise_non_iso_d(v: Seq<CoxeterDiagram>) -> bool {
    forall|k1: int, k2: int|
        0 <= k1 < k2 < v.len() ==> !is_iso_of(
            (#[trigger] v[k2]).rank as nat,
            edge_seq_v(v[k2].edges@),
            (#[trigger] v[k1]).rank as nat,
            edge_seq_v(v[k1].edges@),
        ) && !is_iso_of(
            v[k1].rank as nat,
            edge_seq_v(v[k1].edges@),
            v[k2].rank as nat,
            edge_seq_v(v[k2].edges@),
        )
}

/// Every diagram of the list equals, as a graph datum, the diagram of one
/// of the first `k` entries of the enumeration.
pub open spec fn linked_to_prefix(
    out: Seq<CoxeterDiagram>,
    all: Seq<(CoxeterDiagram, CoxeterGroupType)>,
    k: int,
) -> bool {
    forall|j: int|
        #![trigger out[j]]
        0 <= j < out.len() ==> exists|m: int|
            #![trigger all[m]]
            0 <= m < k && same_graph(&out[j], &all[m].0)
}

/// The diagram is isomorphic to no listed result, in either orientation.
pub open spec fn non_iso_against(
    d: CoxeterDiagram,
    out: Seq<(CoxeterDiagram, CoxeterGroupType)>,
) -> bool {
    forall|k: int|
        0 <= k < out.len() ==> !is_iso_of(
            d.rank as nat,
            edge_seq_v(d.edges@),
            (#[trigger] out[k]).0.rank as nat,
            edge_seq_v(out[k].0.edges@),
        ) && !is_iso_of(
            out[k].0.rank as nat,
            edge_seq_v(out[k].0.edges@),
            d.rank as nat,
            edge_seq_v(d.edges@),
        )
}

impl CoxeterDiagram {
    /// Enumerates connected acyclic diagrams of the given rank by
    /// extending each elliptic diagram of the next lower rank with one new
    /// node, trying bond labels in increasing order, deduplicating by
    /// graph isomorphism and pruning through the subgraph oracle: a known
    /// hyperbolic subdiagram stops the label climb, a known parabolic one
    /// settles the type as hyperbolic. The label climb and the result
    /// count are bounded by the caller; exhausting the label bound is a
    /// distinguishable failure. No two results are isomorphic.
    #[verifier::rlimit(100)]
    #[verifier::spinoff_prover]
    pub fn enumerate_connected_acyclic(rank: usize, max_depth: usize, max_label: u64) -> (r: Result<
        Vec<(CoxeterDiagram, CoxeterGroupType)>,
        CoxeterError,
    >)
        requires
            1 <= rank < 0xFFFF,
            3 <= max_label <= LABEL_MAX,
        ensures
            rank == 1 ==> r is Ok,
            r is Err ==> r->Err_0 == CoxeterError::Overflow || r->Err_0
                == CoxeterError::AmbiguousSign || r->Err_0 == CoxeterError::BoundExceeded,
            r is Ok ==> ({
                let v = r->Ok_0@;
                &&& forall|k: int|
                    0 <= k < v.len() ==> (#[trigger] v[k]).0.wf() && v[k].0.rank == rank
                        && v[k].0.edges@.len() == rank - 1 && tree_shaped(v[k].0.edges@, rank as nat)
                &&& pairwise_non_iso(v)
                &&& type_faithful(v)
                &&& v.len() <= max_depth || v.len() == 1
                &&& rank == 1 ==> v.len() == 1 && v[0].0.edges@.len() == 0 && v[0].1
                    == CoxeterGroupType::Elliptic
            }),
        decreases rank,
    {
        let mut out: Vec<(CoxeterDiagram, CoxeterGroupType)> = Vec::new();
        if rank == 1 {
            let d = CoxeterDiagram { rank: 1, edges: Vec::new() };
            out.push((d, CoxeterGroupType::Elliptic));
            return Ok(out);
        }
        let prev = match Self::enumerate_connected_acyclic(rank - 1, max_depth, max_label) {
            Ok(v) => v,
            Err(e) => {
                return Err(e);
            },
        };
        let mut elliptic: Vec<CoxeterDiagram> = Vec::new();
        let mut parabolic: Vec<CoxeterDiagram> = Vec::new();
        let mut hyperbolic: Vec<CoxeterDiagram> = Vec::new();
        let mut t: usize = 0;
        while t < prev.len()
            invariant
                rank >= 2,
                t <= prev.len(),
                forall|k: int|
                    0 <= k < prev@.len() ==> (#[trigger] prev@[k]).0.wf() && prev@[k].0.rank == rank
                        - 1 && prev@[k].0.edges@.len() == rank - 2 && tree_shaped(prev@[k].0.edges@, (rank - 1) as nat),
                forall|k: int|
                    0 <= k < elliptic@.len() ==> (#[trigger] elliptic@[k]).wf() && elliptic@[k].rank
                        == rank - 1 && elliptic@[k].edges@.len() == rank - 2 && tree_shaped(elliptic@[k].edges@, (rank - 1) as nat),
                forall|k: int|
                    0 <= k < parabolic@.len() ==> (#[trigger] parabolic@[k]).wf()
                        && parabolic@[k].rank == rank - 1 && parabolic@[k].edges@.len() == rank - 2,
                forall|k: int|
                    0 <= k < hyperbolic@.len() ==> (#[trigger] hyperbolic@[k]).wf()
                        && hyperbolic@[k].rank == rank - 1 && hyperbolic@[k].edges@.len() == rank
                        - 2,
            decreases prev.len() - t,
        {
            let (d, ty) = (prev[t].0.clone(), prev[t].1);
            proof {
                assert(d.wf()) by {
                    assert(d.edges@ == prev@[t as int].0.edges@);
                }
            }
            match ty {
                CoxeterGroupType::Elliptic => elliptic.push(d),
                CoxeterGroupType::Parabolic => parabolic.push(d),
                CoxeterGroupType::Hyperbolic => hyperbolic.push(d),
            }
            t += 1;
        }
        let mut visited: Vec<CoxeterDiagram> = Vec::new();
        let mut e: usize = 0;
        while e < elliptic.len()
            invariant
                2 <= rank < 0xFFFF,
                3 <= max_label <= LABEL_MAX,
                e <= elliptic.len(),
                forall|k: int|
                    0 <= k < elliptic@.len() ==> (#[trigger] elliptic@[k]).wf() && elliptic@[k].rank
                        == rank - 1 && elliptic@[k].edges@.len() == rank - 2 && tree_shaped(elliptic@[k].edges@, (rank - 1) as nat),
                forall|k: int|
                    0 <= k < parabolic@.len() ==> (#[trigger] parabolic@[k]).wf()
                        && parabolic@[k].rank == rank - 1 && parabolic@[k].edges@.len() == rank - 2,
                forall|k: int|
                    0 <= k < hyperbolic@.len() ==> (#[trigger] hyperbolic@[k]).wf()
                        && hyperbolic@[k].rank == rank - 1 && hyperbolic@[k].edges@.len() == rank
                        - 2,
                forall|k: int|
                    0 <= k < visited@.len() ==> (#[trigger] visited@[k]).wf() && visited@[k].rank
                        == rank && visited@[k].edges@.len() == rank - 1 && tree_shaped(visited@[k].edges@, rank as nat),
                forall|k: int|
                    0 <= k < out@.len() ==> (#[trigger] out@[k]).0.wf() && out@[k].0.rank == rank
                        && out@[k].0.edges@.len() == rank - 1 && tree_shaped(out@[k].0.edges@, rank as nat),
                out@.len() < max_depth || out@.len() == 0,
                pairwise_non_iso(out@),
                type_faithful(out@),
                linked_to_visited(out@, visited@),
            decreases elliptic.len() - e,
        {
            let mut i: usize = 0;
            while i < rank - 1
                invariant
                    2 <= rank < 0xFFFF,
                    3 <= max_label <= LABEL_MAX,
                    e < elliptic.len(),
                    i <= rank - 1,
                    forall|k: int|
                        0 <= k < elliptic@.len() ==> (#[trigger] elliptic@[k]).wf()
                            && elliptic@[k].rank == rank - 1 && elliptic@[k].edges@.len() == rank
                            - 2 && tree_shaped(elliptic@[k].edges@, (rank - 1) as nat),
                    forall|k: int|
                        0 <= k < parabolic@.len() ==> (#[trigger] parabolic@[k]).wf()
                            && parabolic@[k].rank == rank - 1 && parabolic@[k].edges@.len() == rank
                            - 2,
                    forall|k: int|
                        0 <= k < hyperbolic@.len() ==> (#[trigger] hyperbolic@[k]).wf()
                            && hyperbolic@[k].rank == rank - 1 && hyperbolic@[k].edges@.len()
                            == rank - 2,
                    forall|k: int|
                        0 <= k < visited@.len() ==> (#[trigger] visited@[k]).wf()
                            && visited@[k].rank == rank && visited@[k].edges@.len() == rank - 1 && tree_shaped(visited@[k].edges@, rank as nat),
                    forall|k: int|
                        0 <= k < out@.len() ==> (#[trigger] out@[k]).0.wf() && out@[k].0.rank
                            == rank && out@[k].0.edges@.len() == rank - 1 && tree_shaped(out@[k].0.edges@, rank as nat),
                    out@.len() < max_depth || out@.len() == 0,
                    pairwise_non_iso(out@),
                    type_faithful(out@),
                    linked_to_visited(out@, visited@),
                decreases rank - i,
            {
                let mut label: u64 = 3;
                let mut stop: bool = false;
                while !stop && label <= max_label
                    invariant
                        2 <= rank < 0xFFFF,
                        3 <= max_label <= LABEL_MAX,
                        3 <= label <= max_label + 1,
                        e < elliptic.len(),
                        i < rank - 1,
                        forall|k: int|
                            0 <= k < elliptic@.len() ==> (#[trigger] elliptic@[k]).wf()
                                && elliptic@[k].rank == rank - 1 && elliptic@[k].edges@.len()
                                == rank - 2 && tree_shaped(elliptic@[k].edges@, (rank - 1) as nat),
                        forall|k: int|
                            0 <= k < parabolic@.len() ==> (#[trigger] parabolic@[k]).wf()
                                && parabolic@[k].rank == rank - 1 && parabolic@[k].edges@.len()
                                == rank - 2,
                        forall|k: int|
                            0 <= k < hyperbolic@.len() ==> (#[trigger] hyperbolic@[k]).wf()
                                && hyperbolic@[k].rank == rank - 1 && hyperbolic@[k].edges@.len()
                                == rank - 2,
                        forall|k: int|
                            0 <= k < visited@.len() ==> (#[trigger] visited@[k]).wf()
                                && visited@[k].rank == rank && visited@[k].edges@.len() == rank
                                - 1 && tree_shaped(visited@[k].edges@, rank as nat),
                        forall|k: int|
                            0 <= k < out@.len() ==> (#[trigger] out@[k]).0.wf() && out@[k].0.rank
                                == rank && out@[k].0.edges@.len() == rank - 1 && tree_shaped(out@[k].0.edges@, rank as nat),
                        out@.len() < max_depth || out@.len() == 0,
                        pairwise_non_iso(out@),
                        type_faithful(out@),
                        linked_to_visited(out@, visited@),
                    decreases max_label + 1 - label, (if stop {
                        0int
                    } else {
                        1int
                    }),
                {
                    let mut d = elliptic[e].clone();
                    proof {
                        assert(d.wf()) by {
                            assert(d.edges@ == elliptic@[e as int].edges@);
                        }
                    }
                    d.add_node();
                    let ghost parent_edges = d.edges@;
                    proof {
                        assert forall|m: int| 0 <= m < d.edges@.len() implies ((
                        #[trigger] d.edges@[m]).0.0 as nat, d.edges@[m].0.1 as nat) != (
                        i as nat,
                        (rank - 1) as nat,
                        ) by {
                            assert(d.edges@[m].0.1 < rank - 1);
                        }
                        lemma_edges_map_absent(d.edges@, (i as nat, (rank - 1) as nat));
                        assert(norm_pair(i as nat, (rank - 1) as nat) == (
                            i as nat,
                            (rank - 1) as nat,
                        ));
                    }
                    d.set_edge(i, rank - 1, label);
                    proof {
                        assert(d.edges@ == parent_edges.push(((i, (rank - 1) as usize), label)));
                        assert(tree_shaped(d.edges@, rank as nat)) by {
                            assert(forall|m: int|
                                0 <= m < parent_edges.len() ==> d.edges@[m] == parent_edges[m]);
                            assert(d.edges@[d.edges@.len() - 1] == ((i, (rank - 1) as usize), label));
                        }
                    }
                    // dedup by isomorphism against everything seen at this rank
                    let mut seen: bool = false;
                    let mut v: usize = 0;
                    while v < visited.len()
                        invariant
                            d.wf(),
                            d.rank == rank,
                            d.edges@.len() == rank - 1,
                            tree_shaped(d.edges@, rank as nat),
                            rank < 0xFFFF,
                            v <= visited.len(),
                            forall|k: int|
                                0 <= k < visited@.len() ==> (#[trigger] visited@[k]).wf()
                                    && visited@[k].rank == rank && visited@[k].edges@.len() == rank - 1 && tree_shaped(visited@[k].edges@, rank as nat),
                            !seen ==> forall|k: int|
                                0 <= k < v ==> !is_iso_of(
                                    d.rank as nat,
                                    edge_seq_v(d.edges@),
                                    (#[trigger] visited@[k]).rank as nat,
                                    edge_seq_v(visited@[k].edges@),
                                ) && !is_iso_of(
                                    visited@[k].rank as nat,
                                    edge_seq_v(visited@[k].edges@),
                                    d.rank as nat,
                                    edge_seq_v(d.edges@),
                                ),
                        ensures
                            !seen ==> forall|k: int|
                                0 <= k < visited@.len() ==> !is_iso_of(
                                    d.rank as nat,
                                    edge_seq_v(d.edges@),
                                    (#[trigger] visited@[k]).rank as nat,
                                    edge_seq_v(visited@[k].edges@),
                                ) && !is_iso_of(
                                    visited@[k].rank as nat,
                                    edge_seq_v(visited@[k].edges@),
                                    d.rank as nat,
                                    edge_seq_v(d.edges@),
                                ),
                        decreases visited.len() - v,
                    {
                        if d.is_isomorphic(&visited[v]) || visited[v].is_isomorphic(&d) {
                            seen = true;
                            break ;
                        }
                        v += 1;
                    }
                    if seen {
                        label += 1;
                        continue ;
                    }
                    let dcopy = d.clone();
                    proof {
                        assert(dcopy.wf()) by {
                            assert(dcopy.edges@ == d.edges@);
                        }
                        lemma_enum_push(out@, visited@, &d);
                    }
                    let ghost vis_pre = visited@;
                    visited.push(dcopy);
                    proof {
                        assert(visited@.drop_last() =~= vis_pre);
                        assert(same_graph(&d, &visited@[visited@.len() - 1]));
                        assert forall|k: int| 0 <= k < out@.len() implies exists|m: int|
                            0 <= m < visited@.len() && same_graph(
                                &(#[trigger] out@[k]).0,
                                &visited@[m],
                            ) by {
                            let m = choose|m: int|
                                0 <= m < vis_pre.len() && same_graph(&out@[k].0, &vis_pre[m]);
                            assert(visited@[m] == vis_pre[m]);
                            assert(same_graph(&out@[k].0, &visited@[m]));
                        }
                        assert(linked_to_visited(out@, visited@));
                    }
                    // prune through the subgraph oracle
                    let mut hyp_sub: bool = false;
                    let mut v2: usize = 0;
                    while v2 < hyperbolic.len()
                        invariant
                            d.wf(),
                            d.rank == rank,
                            d.edges@.len() == rank - 1,
                            tree_shaped(d.edges@, rank as nat),
                            rank < 0xFFFF,
                            v2 <= hyperbolic.len(),
                            forall|k: int|
                                0 <= k < hyperbolic@.len() ==> (#[trigger] hyperbolic@[k]).wf()
                                    && hyperbolic@[k].rank == rank - 1
                                    && hyperbolic@[k].edges@.len() == rank - 2,
                            visited@.len() > 0,
                            same_graph(&d, &visited@[visited@.len() - 1]),
                            linked_to_visited(out@, visited@),
                            non_iso_against(d, out@),
                        decreases hyperbolic.len() - v2,
                    {
                        if hyperbolic[v2].is_isomorphic_subgraph(&d) {
                            hyp_sub = true;
                            break ;
                        }
                        v2 += 1;
                    }
                    if hyp_sub {
                        stop = true;
                        continue ;
                    }
                    let mut par_sub: bool = false;
                    let mut v3: usize = 0;
                    while v3 < parabolic.len()
                        invariant
                            d.wf(),
                            d.rank == rank,
                            d.edges@.len() == rank - 1,
                            tree_shaped(d.edges@, rank as nat),
                            rank < 0xFFFF,
                            v3 <= parabolic.len(),
                            forall|k: int|
                                0 <= k < parabolic@.len() ==> (#[trigger] parabolic@[k]).wf()
                                    && parabolic@[k].rank == rank - 1
                                    && parabolic@[k].edges@.len() == rank - 2,
                            visited@.len() > 0,
                            same_graph(&d, &visited@[visited@.len() - 1]),
                            linked_to_visited(out@, visited@),
                            non_iso_against(d, out@),
                        decreases parabolic.len() - v3,
                    {
                        if parabolic[v3].is_isomorphic_subgraph(&d) {
                            par_sub = true;
                            break ;
                        }
                        v3 += 1;
                    }
                    let ghost out_pre = out@;
                    if par_sub {
                        out.push((d, CoxeterGroupType::Hyperbolic));
                        proof {
                            assert(out@.drop_last() =~= out_pre);
                            lemma_out_extend(out@, out_pre, visited@);
                            assert(type_faithful(out@)) by {
                                assert(forall|k: int|
                                    0 <= k < out_pre.len() ==> out@[k] == out_pre[k]);
                                assert((out@[out@.len() - 1]).1 == CoxeterGroupType::Hyperbolic);
                            }
                        }
                        if out.len() >= max_depth {
                            return Ok(out);
                        }
                        stop = true;
                        continue ;
                    }
                    let ty = match d.coxeter_group_type() {
                        Ok(ty) => ty,
                        Err(err) => {
                            return Err(err);
                        },
                    };
                    out.push((d, ty));
                    proof {
                        assert(out@.drop_last() =~= out_pre);
                        lemma_out_extend(out@, out_pre, visited@);
                        assert(type_faithful(out@)) by {
                            assert(forall|k: int|
                                0 <= k < out_pre.len() ==> out@[k] == out_pre[k]);
                            assert(spec_signs_ok(d.labeling(), d.rank as nat) && ty
                                == type_of_signs(spec_sign_seq(d.labeling(), d.rank as nat)));
                        }
                    }
                    if out.len() >= max_depth {
                        return Ok(out);
                    }
                    if matches!(ty, CoxeterGroupType::Hyperbolic) {
                        stop = true;
                        continue ;
                    }
                    label += 1;
                }
                if !stop && label > max_label {
                    return Err(CoxeterError::BoundExceeded);
                }
                i += 1;
            }
            e += 1;
        }
        Ok(out)
    }

    /// Keeps only the diagrams of the enumeration whose recorded type is
    /// elliptic; each returned diagram above rank one therefore classifies
    /// as elliptic, and no two returned diagrams are isomorphic.
    #[verifier::rlimit(100)]
    #[verifier::spinoff_prover]
    pub fn enumerate_finite(rank: usize, max_depth: usize, max_label: u64) -> (r: Result<
        Vec<CoxeterDiagram>,
        CoxeterError,
    >)
        requires
            1 <= rank < 0xFFFF,
            3 <= max_label <= LABEL_MAX,
        ensures
            r is Ok ==> ({
                let v = r->Ok_0@;
                &&& forall|k: int|
                    0 <= k < v.len() ==> (#[trigger] v[k]).wf() && v[k].rank == rank
                        && v[k].edges@.len() == rank - 1
                &&& rank >= 2 ==> forall|k: int|
                    0 <= k < v.len() ==> spec_signs_ok((#[trigger] v[k]).labeling(), rank as nat)
                        && type_of_signs(spec_sign_seq(v[k].labeling(), rank as nat))
                        == CoxeterGroupType::Elliptic
                &&& pairwise_non_iso_d(v)
                &&& v.len() <= max_depth || v.len() == 1
            }),
    {
        let all = match Self::enumerate_connected_acyclic(rank, max_depth, max_label) {
            Ok(v) => v,
            Err(e) => {
                return Err(e);
            },
        };
        let mut out: Vec<CoxeterDiagram> = Vec::new();
        let mut k: usize = 0;
        while k < all.len()
            invariant
                k <= all.len(),
                forall|m: int|
                    0 <= m < all@.len() ==> (#[trigger] all@[m]).0.wf() && all@[m].0.rank == rank
                        && all@[m].0.edges@.len() == rank - 1,
                pairwise_non_iso(all@),
                type_faithful(all@),
                forall|m: int|
                    0 <= m < out@.len() ==> (#[trigger] out@[m]).wf() && out@[m].rank == rank
                        && out@[m].edges@.len() == rank - 1,
                rank >= 2 ==> forall|m: int|
                    0 <= m < out@.len() ==> spec_signs_ok((#[trigger] out@[m]).labeling(), rank as nat)
                        && type_of_signs(spec_sign_seq(out@[m].labeling(), rank as nat))
                        == CoxeterGroupType::Elliptic,
                out@.len() <= k,
                pairwise_non_iso_d(out@),
                linked_to_prefix(out@, all@, k as int),
            decreases all.len() - k,
        {
            if matches!(all[k].1, CoxeterGroupType::Elliptic) {
                let d = all[k].0.clone();
                proof {
                    assert(d.wf()) by {
                        assert(d.edges@ == all@[k as int].0.edges@);
                    }
                    assert(same_graph(&d, &all@[k as int].0));
                    if rank >= 2 {
                        assert(all@[k as int].1 == CoxeterGroupType::Elliptic);
                        assert(spec_signs_ok(all@[k as int].0.labeling(), rank as nat)
                            && type_of_signs(
                            spec_sign_seq(all@[k as int].0.labeling(), rank as nat),
                        ) == CoxeterGroupType::Elliptic);
                        assert(d.labeling() == all@[k as int].0.labeling());
                    }
                }
                let ghost out_pre = out@;
                out.push(d);
                proof {
                    assert(out@.drop_last() =~= out_pre);
                    assert forall|j: int| #![trigger out@[j]] 0 <= j < out@.len() implies exists|
                        m: int,
                    |
                        #![trigger all@[m]]
                        0 <= m < k + 1 && same_graph(&out@[j], &all@[m].0) by {
                        if j < out_pre.len() {
                            let m = choose|m: int|
                                #![trigger all@[m]]
                                0 <= m < k && same_graph(&out_pre[j], &all@[m].0);
                            assert(same_graph(&out@[j], &all@[m].0));
                        } else {
                            assert(same_graph(&out@[j], &all@[k as int].0));
                        }
                    }
                    assert forall|k1: int, k2: int| 0 <= k1 < k2 < out@.len() implies !is_iso_of(
                        (#[trigger] out@[k2]).rank as nat,
                        edge_seq_v(out@[k2].edges@),
                        (#[trigger] out@[k1]).rank as nat,
                        edge_seq_v(out@[k1].edges@),
                    ) by {
                        if k2 == out@.len() - 1 {
                            let m = choose|m: int|
                                #![trigger all@[m]]
                                0 <= m < k && same_graph(&out_pre[k1], &all@[m].0);
                            assert(!is_iso_of(
                                all@[k as int].0.rank as nat,
                                edge_seq_v(all@[k as int].0.edges@),
                                all@[m].0.rank as nat,
                                edge_seq_v(all@[m].0.edges@),
                            ));
                        } else {
                            assert(out@[k1] == out_pre[k1] && out@[k2] == out_pre[k2]);
                        }
                    }
                }
            } else {
                proof {
                    assert forall|j: int| #![trigger out@[j]] 0 <= j < out@.len() implies exists|
                        m: int,
                    |
                        #![trigger all@[m]]
                        0 <= m < k + 1 && same_graph(&out@[j], &all@[m].0) by {
                        let m = choose|m: int|
                            #![trigger all@[m]]
                            0 <= m < k && same_graph(&out@[j], &all@[m].0);
                        assert(same_graph(&out@[j], &all@[m].0));
                    }
                }
            }
            k += 1;
        }
        Ok(out)
    }
}

/// Extending the result list by one entry that equals the last visited
/// graph datum keeps the linking of results into the visited list.
proof fn lemma_out_extend(
    out: Seq<(CoxeterDiagram, CoxeterGroupType)>,
    out_pre: Seq<(CoxeterDiagram, CoxeterGroupType)>,
    visited: Seq<CoxeterDiagram>,
)
    requires
        out.len() == out_pre.len() + 1,
        forall|k: int| 0 <= k < out_pre.len() ==> out[k] == out_pre[k],
        visited.len() > 0,
        same_graph(&out.last().0, &visited.last()),
        linked_to_visited(out_pre, visited),
    ensures
        linked_to_visited(out, visited),
{
    assert forall|k: int| 0 <= k < out.len() implies exists|m: int|
        0 <= m < visited.len() && same_graph(&(#[trigger] out[k]).0, &visited[m]) by {
        if k < out_pre.len() {
            let m = choose|m: int|
                0 <= m < visited.len() && same_graph(&out_pre[k].0, &visited[m]);
            assert(same_graph(&out[k].0, &visited[m]));
        } else {
            assert(same_graph(&out[k].0, &visited[visited.len() - 1]));
        }
    }
}

proof fn lemma_enum_push(
    out: Seq<(CoxeterDiagram, CoxeterGroupType)>,
    visited: Seq<CoxeterDiagram>,
    d: &CoxeterDiagram,
)
    requires
        pairwise_non_iso(out),
        linked_to_visited(out, visited),
        forall|m: int|
            0 <= m < visited.len() ==> !is_iso_of(
                d.rank as nat,
                edge_seq_v(d.edges@),
                (#[trigger] visited[m]).rank as nat,
                edge_seq_v(visited[m].edges@),
            ) && !is_iso_of(
                visited[m].rank as nat,
                edge_seq_v(visited[m].edges@),
                d.rank as nat,
                edge_seq_v(d.edges@),
            ),
    ensures
        non_iso_against(*d, out),
{
    assert forall|k: int| 0 <= k < out.len() implies !is_iso_of(
        d.rank as nat,
        edge_seq_v(d.edges@),
        (#[trigger] out[k]).0.rank as nat,
        edge_seq_v(out[k].0.edges@),
    ) && !is_iso_of(
        out[k].0.rank as nat,
        edge_seq_v(out[k].0.edges@),
        d.rank as nat,
        edge_seq_v(d.edges@),
    ) by {
        let m = choose|m: int| 0 <= m < visited.len() && same_graph(&out[k].0, &visited[m]);
        assert(!is_iso_of(
            d.rank as nat,
            edge_seq_v(d.edges@),
            visited[m].rank as nat,
            edge_seq_v(visited[m].edges@),
        ));
        assert(!is_iso_of(
            visited[m].rank as nat,
            edge_seq_v(visited[m].edges@),
            d.rank as nat,
            edge_seq_v(d.edges@),
        ));
    }
}

/// The views of a dense coefficient vector.
pub open spec fn dv(s: Seq<Cyclotomic>) -> Seq<Seq<(int, nat, nat)>> {
    s.map_values(|x: Cyclotomic| x@)
}

/// The characteristic matrix of a Coxeter element view: the variable
/// minus the element, entrywise, over polynomials.
pub open spec fn charmat_v(cv: Seq<Seq<Seq<(int, nat, nat)>>>, n: nat) -> Seq<
    Seq<Seq<(Seq<(int, nat, nat)>, nat)>>,
> {
    Seq::new(
        n,
        |i: int|
            Seq::new(
                n,
                |j: int|
                    if i == j {
                        crate::graded_ring::pmerge(
                            poly_const(crate::cyclotomic::cneg(cv[i][j])),
                            seq![(crate::cyclotomic::one_terms(), 1nat)],
                        )
                    } else {
                        poly_const(crate::cyclotomic::cneg(cv[i][j]))
                    },
            ),
    )
}

/// The coefficient a polynomial carries at an exponent: the first match.
pub open spec fn pcoeff_at_exp(p: Seq<(Seq<(int, nat, nat)>, nat)>, e: nat) -> Seq<(int, nat, nat)>
    decreases p.len(),
{
    if p.len() == 0 {
        Seq::empty()
    } else if p[0].1 == e {
        p[0].0
    } else {
        pcoeff_at_exp(p.drop_first(), e)
    }
}

/// Whether a polynomial carries a term at the exponent.
pub open spec fn has_exp(p: Seq<(Seq<(int, nat, nat)>, nat)>, e: nat) -> bool
    decreases p.len(),
{
    p.len() > 0 && (p[0].1 == e || has_exp(p.drop_first(), e))
}

/// The dense coefficient vector of a polynomial, up to the given length.
pub open spec fn dense_of(p: Seq<(Seq<(int, nat, nat)>, nat)>, len: nat) -> Seq<
    Seq<(int, nat, nat)>,
> {
    Seq::new(len, |e: int| pcoeff_at_exp(p, e as nat))
}

/// The dense length of a polynomial: one above its degree.
pub open spec fn dense_len(p: Seq<(Seq<(int, nat, nat)>, nat)>) -> nat {
    if p.len() == 0 {
        1
    } else {
        p.last().1 + 1
    }
}

/// Appending a term extends the coefficient lookup by its exponent.
proof fn lemma_pcoeff_push(
    s: Seq<(Seq<(int, nat, nat)>, nat)>,
    x: (Seq<(int, nat, nat)>, nat),
    e: nat,
)
    ensures
        has_exp(s.push(x), e) == (has_exp(s, e) || x.1 == e),
        pcoeff_at_exp(s.push(x), e) == (if has_exp(s, e) {
            pcoeff_at_exp(s, e)
        } else if x.1 == e {
            x.0
        } else {
            Seq::<(int, nat, nat)>::empty()
        }),
    decreases s.len(),
{
    if s.len() == 0 {
        assert(s.push(x)[0] == x);
        assert(s.push(x).len() == 1);
        assert(s.push(x).drop_first() =~= Seq::<(Seq<(int, nat, nat)>, nat)>::empty());
        assert(pcoeff_at_exp(s.push(x).drop_first(), e) == Seq::<(int, nat, nat)>::empty());
        assert(!has_exp(s.push(x).drop_first(), e));
    } else {
        assert(s.push(x)[0] == s[0]);
        assert(s.push(x).drop_first() =~= s.drop_first().push(x));
        lemma_pcoeff_push(s.drop_first(), x, e);
    }
}

/// A polynomial with no term at the exponent has an empty coefficient.
proof fn lemma_pcoeff_absent(s: Seq<(Seq<(int, nat, nat)>, nat)>, e: nat)
    requires
        !has_exp(s, e),
    ensures
        pcoeff_at_exp(s, e) == Seq::<(int, nat, nat)>::empty(),
    decreases s.len(),
{
    if s.len() > 0 {
        lemma_pcoeff_absent(s.drop_first(), e);
    }
}

/// Exponents not carried by any term have no entry.
proof fn lemma_has_exp_none(s: Seq<(Seq<(int, nat, nat)>, nat)>, e: nat)
    requires
        forall|m: int| 0 <= m < s.len() ==> (#[trigger] s[m]).1 != e,
    ensures
        !has_exp(s, e),
    decreases s.len(),
{
    if s.len() > 0 {
        assert(forall|m: int|
            0 <= m < s.drop_first().len() ==> (#[trigger] s.drop_first()[m]) == s[m + 1]);
        lemma_has_exp_none(s.drop_first(), e);
    }
}

/// One quotient coefficient of the synthetic division of a dense vector
/// by the monic linear factor at `root`, from position `k` up.
pub open spec fn synth_b(a: Seq<Seq<(int, nat, nat)>>, root: Seq<(int, nat, nat)>, k: int) -> Seq<
    (int, nat, nat),
>
    decreases a.len() - k,
{
    if k >= a.len() - 2 {
        a[a.len() - 1]
    } else {
        crate::cyclotomic::merge(a[k + 1], crate::cyclotomic::cmul(root, synth_b(a, root, k + 1)))
    }
}

/// One round of trial division of a dense polynomial by the monic linear
/// factor at `root`: how many times the factor divides exactly, and the
/// remaining dense polynomial.
pub open spec fn spec_peel(a: Seq<Seq<(int, nat, nat)>>, root: Seq<(int, nat, nat)>) -> (
    nat,
    Seq<Seq<(int, nat, nat)>>,
)
    decreases a.len(),
{
    if a.len() < 2 {
        (0, a)
    } else {
        let quot = Seq::new((a.len() - 1) as nat, |m: int| synth_b(a, root, m));
        let rem = crate::cyclotomic::merge(a[0], crate::cyclotomic::cmul(root, quot[0]));
        if spec_is_zero(rem) {
            let pr = spec_peel(quot, root);
            ((pr.0 + 1) as nat, pr.1)
        } else {
            (0, a)
        }
    }
}

/// The exponents collected by exact trial division: each candidate `e`
/// from zero up to the Coxeter number contributes its division
/// multiplicity at the root of unity with that exponent.
pub open spec fn spec_exps(a: Seq<Seq<(int, nat, nat)>>, h: nat, e: nat) -> Seq<nat>
    decreases h - e,
{
    if e >= h {
        Seq::empty()
    } else {
        let pl = spec_peel(a, crate::cyclotomic::root_terms(h, e));
        Seq::new(pl.0, |i: int| e) + spec_exps(pl.1, h, (e + 1) as nat)
    }
}

/// Every machine-range condition of one synthetic-division pass holds.
pub open spec fn synth_fits(a: Seq<Seq<(int, nat, nat)>>, root: Seq<(int, nat, nat)>, k: int) -> bool
    decreases a.len() - k,
{
    if k >= a.len() - 2 {
        true
    } else {
        &&& crate::cyclotomic::cmul_fits(root, synth_b(a, root, k + 1))
        &&& crate::cyclotomic::merge_fits(
            a[k + 1],
            crate::cyclotomic::cmul(root, synth_b(a, root, k + 1)),
        )
        &&& synth_fits(a, root, k + 1)
    }
}

/// Every machine-range condition of one trial-division round holds.
pub open spec fn peel_fits(a: Seq<Seq<(int, nat, nat)>>, root: Seq<(int, nat, nat)>) -> bool
    decreases a.len(),
{
    if a.len() < 2 {
        true
    } else {
        let quot = Seq::new((a.len() - 1) as nat, |m: int| synth_b(a, root, m));
        let rem = crate::cyclotomic::merge(a[0], crate::cyclotomic::cmul(root, quot[0]));
        &&& synth_fits(a, root, 0)
        &&& crate::cyclotomic::cmul_fits(root, quot[0])
        &&& crate::cyclotomic::merge_fits(a[0], crate::cyclotomic::cmul(root, quot[0]))
        &&& crate::cyclotomic::zero_test_fits(rem)
        &&& (spec_is_zero(rem) ==> peel_fits(quot, root))
    }
}

/// Every machine-range condition of the exponent collection holds.
pub open spec fn exps_fits(a: Seq<Seq<(int, nat, nat)>>, h: nat, e: nat) -> bool
    decreases h - e,
{
    if e >= h {
        true
    } else {
        &&& peel_fits(a, crate::cyclotomic::root_terms(h, e))
        &&& exps_fits(spec_peel(a, crate::cyclotomic::root_terms(h, e)).1, h, (e + 1) as nat)
    }
}

/// The product of the degrees read off an exponent list.
pub open spec fn nat_deg_prod(es: Seq<nat>) -> nat
    decreases es.len(),
{
    if es.len() == 0 {
        1
    } else {
        nat_deg_prod(es.drop_last()) * (es.last() + 1)
    }
}

/// Every running product of the degrees stays within the machine range.
pub open spec fn deg_prod_fits(es: Seq<nat>) -> bool
    decreases es.len(),
{
    if es.len() == 0 {
        true
    } else {
        deg_prod_fits(es.drop_last()) && nat_deg_prod(es.drop_last()) * (es.last() + 1)
            <= u64::MAX
    }
}

/// A fitting degree product fits on every prefix.
pub proof fn lemma_deg_prod_fits_take(es: Seq<nat>, k: int)
    requires
        deg_prod_fits(es),
        0 <= k <= es.len(),
    ensures
        deg_prod_fits(es.take(k)),
    decreases es.len() - k,
{
    if k == es.len() {
        assert(es.take(k) =~= es);
    } else {
        lemma_deg_prod_fits_take(es, k + 1);
        assert(es.take(k + 1).drop_last() =~= es.take(k));
    }
}

/// Every machine-range condition of the group-invariants computation
/// holds, for the given Coxeter number.
pub open spec fn info_fits(m: Map<(nat, nat), nat>, rank: nat, bound: nat, hh: nat) -> bool {
    let sv = schlafli_v(m, rank);
    let cv = coxeter_element_v(sv, rank);
    let p = det_v(charmat_v(cv, rank));
    let d0 = dense_of(p, dense_len(p));
    &&& elt_fits(sv, rank)
    &&& forall|k: nat|
        1 <= k <= bound ==> crate::square_matrix::mat_isone_fits(
            #[trigger] mat_pow1_v(cv, rank, k),
            rank,
        ) && crate::square_matrix::mat_mul_fits(mat_pow1_v(cv, rank, k), cv, rank)
    &&& crate::square_matrix::det_full_fits(charmat_v(cv, rank))
    &&& dense_len(p) <= 0x10000
    &&& exps_fits(d0, hh, 0)
    &&& deg_prod_fits(spec_exps(d0, hh, 0))
}

/// The group-invariants computation is owed success: the Coxeter element's
/// order is found within the bound at `hh`, and every machine-range
/// condition along the way holds.
pub open spec fn info_succeeds(m: Map<(nat, nat), nat>, rank: nat, bound: nat, hh: nat) -> bool {
    let cv = coxeter_element_v(schlafli_v(m, rank), rank);
    &&& 1 <= hh <= bound
    &&& crate::square_matrix::mat_is_one_op(mat_pow1_v(cv, rank, hh), rank)
    &&& forall|k: nat|
        1 <= k < hh ==> !crate::square_matrix::mat_is_one_op(
            #[trigger] mat_pow1_v(cv, rank, k),
            rank,
        )
    &&& info_fits(m, rank, bound, hh)
}

/// The Coxeter number in a success hypothesis is the one the order search
/// finds: least positions of the identity coincide.
pub proof fn lemma_info_hh_unique(
    m: Map<(nat, nat), nat>,
    rank: nat,
    bound: nat,
    hh: nat,
    h: nat,
)
    requires
        info_succeeds(m, rank, bound, hh),
        1 <= h <= bound,
        crate::square_matrix::mat_is_one_op(
            mat_pow1_v(coxeter_element_v(schlafli_v(m, rank), rank), rank, h),
            rank,
        ),
        forall|k: nat|
            1 <= k < h ==> !crate::square_matrix::mat_is_one_op(
                #[trigger] mat_pow1_v(coxeter_element_v(schlafli_v(m, rank), rank), rank, k),
                rank,
            ),
    ensures
        hh == h,
{
    let cv = coxeter_element_v(schlafli_v(m, rank), rank);
    if hh < h {
        assert(!crate::square_matrix::mat_is_one_op(mat_pow1_v(cv, rank, hh), rank));
    } else if hh > h {
        assert(!crate::square_matrix::mat_is_one_op(mat_pow1_v(cv, rank, h), rank));
    }
}

/// The exponent list of a labeling at a given rank and Coxeter number: the
/// trial-division multiplicities of the characteristic polynomial of the
/// Coxeter element, candidate by candidate.
pub open spec fn spec_info_exps(m: Map<(nat, nat), nat>, rank: nat, h: nat) -> Seq<nat> {
    let cv = coxeter_element_v(schlafli_v(m, rank), rank);
    let p = det_v(charmat_v(cv, rank));
    spec_exps(dense_of(p, dense_len(p)), h, 0)
}

} // verus!
