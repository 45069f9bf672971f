use crate::coxeter_diagram::CoxeterDiagramType;
use crate::CoxeterError;
use vstd::prelude::*;

verus! {

/// The multiplicity of a directed Dynkin bond.
#[derive(Clone, Copy, Debug, PartialEq, Eq, Structural)]
pub enum Bond {
    Single,
    Double,
    Triple,
}

/// The crystallographic families.
#[derive(Clone, Copy, Debug, PartialEq, Eq, Structural)]
pub enum DynkinDiagramType {
    A(usize),
    B(usize),
    C(usize),
    D(usize),
    E(usize),
    F(usize),
    G(usize),
}

/// A Dynkin diagram: a directed graph of bonds on `rank` nodes. The arrow
/// points from the long root to the short root, so the Cartan entry below
/// the diagonal depends on the bond's multiplicity.
#[derive(Debug)]
pub struct DynkinDiagram {
    pub rank: usize,
    pub bonds: Vec<((usize, usize), Bond)>,
}

/// The first bond stored for the ordered pair `(i, j)`.
pub open spec fn bond_at(s: Seq<((usize, usize), Bond)>, i: nat, j: nat) -> Option<Bond>
    decreases s.len(),
{
    if s.len() == 0 {
        Option::None
    } else if (s[0].0.0 as nat, s[0].0.1 as nat) == (i, j) {
        Option::Some(s[0].1)
    } else {
        bond_at(s.drop_first(), i, j)
    }
}

/// The Cartan matrix entry of a bond list: `2` on the diagonal, `-1`
/// toward the arrow, the negated multiplicity against it, `0` otherwise.
pub open spec fn cartan_entry(s: Seq<((usize, usize), Bond)>, i: nat, j: nat) -> int {
    if bond_at(s, i, j) is Some {
        -1
    } else if bond_at(s, j, i) is Some {
        match bond_at(s, j, i)->Some_0 {
            Bond::Single => -1,
            Bond::Double => -2,
            Bond::Triple => -3,
        }
    } else if i == j {
        2
    } else {
        0
    }
}

impl DynkinDiagram {
    /// Endpoints are in range and distinct.
    pub open spec fn wf(&self) -> bool {
        forall|k: int|
            0 <= k < self.bonds@.len() ==> (#[trigger] self.bonds@[k]).0.0 < self.rank
                && self.bonds@[k].0.1 < self.rank && self.bonds@[k].0.0 != self.bonds@[k].0.1
    }

    /// Builds a diagram; rejects exactly the lists with an out-of-range
    /// endpoint or a self loop.
    pub fn new(rank: usize, bonds: Vec<((usize, usize), Bond)>) -> (r: Result<Self, CoxeterError>)
        ensures
            r is Ok <==> (forall|k: int|
                0 <= k < bonds@.len() ==> (#[trigger] bonds@[k]).0.0 < rank && bonds@[k].0.1 < rank
                    && bonds@[k].0.0 != bonds@[k].0.1),
            r is Ok ==> r->Ok_0.wf() && r->Ok_0.rank == rank && r->Ok_0.bonds@ == bonds@,
    {
        let mut k: usize = 0;
        while k < bonds.len()
            invariant
                k <= bonds.len(),
                forall|m: int|
                    0 <= m < k ==> (#[trigger] bonds@[m]).0.0 < rank && bonds@[m].0.1 < rank
                        && bonds@[m].0.0 != bonds@[m].0.1,
            decreases bonds.len() - k,
        {
            let ((i, j), _) = bonds[k];
            if i >= rank || j >= rank || i == j {
                return Err(CoxeterError::InvalidConstruction);
            }
            k += 1;
        }
        Ok(DynkinDiagram { rank, bonds })
    }

    pub fn rank(&self) -> (r: usize)
        ensures
            r == self.rank,
    {
        self.rank
    }

    /// The bond stored for the ordered pair `(i, j)`, if any.
    fn get_bond(&self, i: usize, j: usize) -> (r: Option<Bond>)
        ensures
            r == bond_at(self.bonds@, i as nat, j as nat),
    {
        let mut k: usize = 0;
        proof {
            assert(self.bonds@.skip(0) =~= self.bonds@);
        }
        while k < self.bonds.len()
            invariant
                k <= self.bonds.len(),
                bond_at(self.bonds@, i as nat, j as nat) == bond_at(
                    self.bonds@.skip(k as int),
                    i as nat,
                    j as nat,
                ),
            decreases self.bonds.len() - k,
        {
            let ((x, y), b) = self.bonds[k];
            proof {
                assert(self.bonds@.skip(k as int)[0] == self.bonds@[k as int]);
                assert(self.bonds@.skip(k as int).drop_first() =~= self.bonds@.skip(k + 1));
            }
            if x == i && y == j {
                return Some(b);
            }
            k += 1;
        }
        proof {
            assert(self.bonds@.skip(self.bonds@.len() as int).len() == 0);
        }
        None
    }

    /// The Cartan matrix: every entry pinned to `cartan_entry`.
    pub fn cartan_matrix(&self) -> (r: Vec<Vec<i64>>)
        requires
            self.wf(),
        ensures
            r@.len() == self.rank,
            forall|i: int| 0 <= i < self.rank ==> (#[trigger] r@[i])@.len() == self.rank,
            forall|i: int, j: int|
                0 <= i < self.rank && 0 <= j < self.rank ==> (#[trigger] r@[i]@[j]) as int
                    == cartan_entry(self.bonds@, i as nat, j as nat),
    {
        let n = self.rank;
        let mut m: Vec<Vec<i64>> = Vec::new();
        let mut i: usize = 0;
        while i < n
            invariant
                n == self.rank,
                i <= n,
                m@.len() == i,
                forall|a: int| 0 <= a < i ==> (#[trigger] m@[a])@.len() == n,
                forall|a: int, b: int|
                    0 <= a < i && 0 <= b < n ==> (#[trigger] m@[a]@[b]) as int == cartan_entry(
                        self.bonds@,
                        a as nat,
                        b as nat,
                    ),
            decreases n - i,
        {
            let mut row: Vec<i64> = Vec::new();
            let mut j: usize = 0;
            while j < n
                invariant
                    n == self.rank,
                    i < n,
                    j <= n,
                    row@.len() == j,
                    forall|b: int|
                        0 <= b < j ==> (#[trigger] row@[b]) as int == cartan_entry(
                            self.bonds@,
                            i as nat,
                            b as nat,
                        ),
                decreases n - j,
            {
                let e: i64 = match self.get_bond(i, j) {
                    Some(_) => -1,
                    None => match self.get_bond(j, i) {
                        Some(Bond::Single) => -1,
                        Some(Bond::Double) => -2,
                        Some(Bond::Triple) => -3,
                        None => {
                            if i == j {
                                2
                            } else {
                                0
                            }
                        },
                    },
                };
                row.push(e);
                j += 1;
            }
            m.push(row);
            i += 1;
        }
        m
    }

    /// The Coxeter family a crystallographic family folds onto.
    pub fn coxeter_type(value: DynkinDiagramType) -> (r: CoxeterDiagramType)
        ensures
            r == dynkin_to_coxeter(value),
    {
        match value {
            DynkinDiagramType::A(rank) => CoxeterDiagramType::A(rank),
            DynkinDiagramType::B(rank) => CoxeterDiagramType::B(rank),
            DynkinDiagramType::C(rank) => CoxeterDiagramType::C(rank),
            DynkinDiagramType::D(rank) => CoxeterDiagramType::D(rank),
            DynkinDiagramType::E(rank) => CoxeterDiagramType::E(rank),
            DynkinDiagramType::F(rank) => CoxeterDiagramType::F(rank),
            DynkinDiagramType::G(rank) => CoxeterDiagramType::G(rank),
        }
    }
}

/// The Coxeter family of each crystallographic family.
pub open spec fn dynkin_to_coxeter(value: DynkinDiagramType) -> CoxeterDiagramType {
    match value {
        DynkinDiagramType::A(rank) => CoxeterDiagramType::A(rank),
        DynkinDiagramType::B(rank) => CoxeterDiagramType::B(rank),
        DynkinDiagramType::C(rank) => CoxeterDiagramType::C(rank),
        DynkinDiagramType::D(rank) => CoxeterDiagramType::D(rank),
        DynkinDiagramType::E(rank) => CoxeterDiagramType::E(rank),
        DynkinDiagramType::F(rank) => CoxeterDiagramType::F(rank),
        DynkinDiagramType::G(rank) => CoxeterDiagramType::G(rank),
    }
}

} // verus!
