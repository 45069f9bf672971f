use coxeter::coxeter_diagram::{
    CoxeterDiagram, CoxeterDiagramType, CoxeterGroupInfo, CoxeterGroupType,
};
use coxeter::dynkin_diagram::{Bond, DynkinDiagram};

fn family(t: CoxeterDiagramType) -> CoxeterDiagram {
    CoxeterDiagram::from_family(t).unwrap()
}

fn info(t: CoxeterDiagramType) -> CoxeterGroupInfo {
    family(t).coxeter_group_info(100).unwrap()
}

#[test]
fn test_a3() {
    assert_eq!(
        info(CoxeterDiagramType::A(3)),
        CoxeterGroupInfo {
            coxeter_number: 4,
            order: 24,
            exponents: vec![1, 2, 3],
            degrees: vec![2, 3, 4],
        },
    );
}

#[test]
fn test_b3() {
    assert_eq!(
        info(CoxeterDiagramType::B(3)),
        CoxeterGroupInfo {
            coxeter_number: 6,
            order: 48,
            exponents: vec![1, 3, 5],
            degrees: vec![2, 4, 6],
        },
    );
}

#[test]
fn test_d4() {
    assert_eq!(
        info(CoxeterDiagramType::D(4)),
        CoxeterGroupInfo {
            coxeter_number: 6,
            order: 192,
            exponents: vec![1, 3, 3, 5],
            degrees: vec![2, 4, 4, 6],
        },
    );
}

#[test]
fn test_h3() {
    assert_eq!(
        info(CoxeterDiagramType::H(3)),
        CoxeterGroupInfo {
            coxeter_number: 10,
            order: 120,
            exponents: vec![1, 5, 9],
            degrees: vec![2, 6, 10],
        },
    );
}

#[test]
fn test_h4() {
    assert_eq!(
        info(CoxeterDiagramType::H(4)),
        CoxeterGroupInfo {
            coxeter_number: 30,
            order: 14400,
            exponents: vec![1, 11, 19, 29],
            degrees: vec![2, 12, 20, 30],
        },
    );
}

#[test]
fn test_g2() {
    assert_eq!(
        info(CoxeterDiagramType::G(2)),
        CoxeterGroupInfo {
            coxeter_number: 6,
            order: 12,
            exponents: vec![1, 5],
            degrees: vec![2, 6],
        },
    );
}

#[test]
fn test_f4() {
    assert_eq!(
        info(CoxeterDiagramType::F(4)),
        CoxeterGroupInfo {
            coxeter_number: 12,
            order: 1152,
            exponents: vec![1, 5, 7, 11],
            degrees: vec![2, 6, 8, 12],
        },
    );
}

#[test]
fn test_e6() {
    assert_eq!(
        info(CoxeterDiagramType::E(6)),
        CoxeterGroupInfo {
            coxeter_number: 12,
            order: 51840,
            exponents: vec![1, 4, 5, 7, 8, 11],
            degrees: vec![2, 5, 6, 8, 9, 12],
        },
    );
}

#[test]
fn test_e7() {
    assert_eq!(
        info(CoxeterDiagramType::E(7)),
        CoxeterGroupInfo {
            coxeter_number: 18,
            order: 2903040,
            exponents: vec![1, 5, 7, 9, 11, 13, 17],
            degrees: vec![2, 6, 8, 10, 12, 14, 18],
        },
    );
}

#[test]
fn test_e8() {
    assert_eq!(
        info(CoxeterDiagramType::E(8)),
        CoxeterGroupInfo {
            coxeter_number: 30,
            order: 696729600,
            exponents: vec![1, 7, 11, 13, 17, 19, 23, 29],
            degrees: vec![2, 8, 12, 14, 18, 20, 24, 30],
        },
    );
}

#[test]
fn test_coxeter_group_type() {
    assert_eq!(
        family(CoxeterDiagramType::H(3)).coxeter_group_type().unwrap(),
        CoxeterGroupType::Elliptic,
    );
    assert_eq!(
        family(CoxeterDiagramType::H(4)).coxeter_group_type().unwrap(),
        CoxeterGroupType::Elliptic,
    );
    assert_eq!(
        family(CoxeterDiagramType::H(5)).coxeter_group_type().unwrap(),
        CoxeterGroupType::Hyperbolic,
    );
    assert_eq!(
        family(CoxeterDiagramType::G(2)).coxeter_group_type().unwrap(),
        CoxeterGroupType::Elliptic,
    );
    assert_eq!(
        family(CoxeterDiagramType::G(3)).coxeter_group_type().unwrap(),
        CoxeterGroupType::Parabolic,
    );
    assert_eq!(
        family(CoxeterDiagramType::G(4)).coxeter_group_type().unwrap(),
        CoxeterGroupType::Hyperbolic,
    );
    assert_eq!(
        family(CoxeterDiagramType::E(8)).coxeter_group_type().unwrap(),
        CoxeterGroupType::Elliptic,
    );
    assert_eq!(
        family(CoxeterDiagramType::E(9)).coxeter_group_type().unwrap(),
        CoxeterGroupType::Parabolic,
    );
    assert_eq!(
        family(CoxeterDiagramType::E(10)).coxeter_group_type().unwrap(),
        CoxeterGroupType::Hyperbolic,
    );
}

#[test]
fn test_coxeter_numbers() {
    assert_eq!(info(CoxeterDiagramType::B(3)).coxeter_number, 6);
    assert_eq!(info(CoxeterDiagramType::H(3)).coxeter_number, 10);
    assert_eq!(info(CoxeterDiagramType::G(2)).coxeter_number, 6);
    assert_eq!(info(CoxeterDiagramType::F(4)).coxeter_number, 12);
    assert_eq!(info(CoxeterDiagramType::E(6)).coxeter_number, 12);
    assert_eq!(info(CoxeterDiagramType::E(7)).coxeter_number, 18);
    assert_eq!(info(CoxeterDiagramType::E(8)).coxeter_number, 30);
}

#[test]
fn test_g2_degrees() {
    assert_eq!(info(CoxeterDiagramType::G(2)).degrees, &[2, 6]);
}

#[test]
fn test_f4_degrees() {
    assert_eq!(info(CoxeterDiagramType::F(4)).degrees, &[2, 6, 8, 12]);
}

#[test]
fn test_e6_degrees() {
    assert_eq!(info(CoxeterDiagramType::E(6)).degrees, &[2, 5, 6, 8, 9, 12]);
}

#[test]
fn test_e7_degrees() {
    assert_eq!(
        info(CoxeterDiagramType::E(7)).degrees,
        &[2, 6, 8, 10, 12, 14, 18]
    );
}

#[test]
fn test_e8_degrees() {
    assert_eq!(
        info(CoxeterDiagramType::E(8)).degrees,
        &[2, 8, 12, 14, 18, 20, 24, 30]
    );
}

#[test]
fn invalid_families_are_rejected() {
    assert!(CoxeterDiagram::from_family(CoxeterDiagramType::A(0)).is_err());
    assert!(CoxeterDiagram::from_family(CoxeterDiagramType::B(1)).is_err());
    assert!(CoxeterDiagram::from_family(CoxeterDiagramType::E(3)).is_err());
    assert!(CoxeterDiagram::from_family(CoxeterDiagramType::I2(2)).is_err());
    // bad edge data is rejected by the constructor
    assert!(CoxeterDiagram::new(2, vec![((0, 0), 3)]).is_err());
    assert!(CoxeterDiagram::new(2, vec![((0, 5), 3)]).is_err());
    assert!(CoxeterDiagram::new(2, vec![((0, 1), 2)]).is_err());
    assert!(CoxeterDiagram::new(2, vec![((0, 1), 3)]).is_ok());
}

#[test]
fn enumerate_rank_two() {
    // all rank-two diagrams are dihedral and elliptic; the search stops at
    // the requested depth
    let out = CoxeterDiagram::enumerate_connected_acyclic(2, 3, 50).unwrap();
    assert_eq!(out.len(), 3);
    for (d, t) in &out {
        assert_eq!(d.rank(), 2);
        assert_eq!(*t, CoxeterGroupType::Elliptic);
    }
    // the three diagrams carry the labels 3, 4, 5 and are pairwise
    // non-isomorphic
    for i in 0..out.len() {
        for j in 0..out.len() {
            if i != j {
                assert!(!out[i].0.is_isomorphic(&out[j].0));
            }
        }
    }
    // without a depth cutoff the label climb exhausts its bound
    assert!(CoxeterDiagram::enumerate_connected_acyclic(2, 100, 10).is_err());
}

#[test]
fn enumerate_rank_three() {
    // extending the single bond by one node: chains with labels 3, 4, 5
    // stay elliptic, the label 6 chain is affine
    let out = CoxeterDiagram::enumerate_connected_acyclic(3, 4, 50).unwrap();
    assert_eq!(out.len(), 4);
    let types: Vec<CoxeterGroupType> = out.iter().map(|(_, t)| *t).collect();
    assert_eq!(
        types,
        vec![
            CoxeterGroupType::Elliptic,
            CoxeterGroupType::Elliptic,
            CoxeterGroupType::Elliptic,
            CoxeterGroupType::Parabolic,
        ]
    );
    let finite = CoxeterDiagram::enumerate_finite(3, 4, 50).unwrap();
    assert_eq!(finite.len(), 3);
}

#[test]
fn schlafli_matrix_shape() {
    let d = family(CoxeterDiagramType::B(2));
    let m = d.schlafli_matrix();
    assert_eq!(m.len(), 2);
    // diagonal entries are the integer two
    assert_eq!(m[0][0].get_terms().len(), 1);
    assert_eq!(m[0][0].get_terms()[0].0, 2);
    // the off-diagonal entry for label four is -(z + z^3) over eighth roots
    assert_eq!(m[0][1].get_terms().len(), 2);
    assert_eq!(m[0][1].get_terms()[0].0, -1);
    assert_eq!(m[0][1].get_terms()[0].1.numer(), 1);
    assert_eq!(m[0][1].get_terms()[0].1.denom(), 8);
}

#[test]
fn cartan_matrix_of_b2() {
    let d = DynkinDiagram::new(2, vec![((1, 0), Bond::Double)]).unwrap();
    let c = d.cartan_matrix();
    assert_eq!(c, vec![vec![2, -2], vec![-1, 2]]);
}
