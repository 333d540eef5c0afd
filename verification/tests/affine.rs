use lib::affine::{AffineExpr, AffineMap, AffineSet, BoxSet, Constraint, ConstraintKind};

#[test]
fn map_eval_and_identity() {
    // (d0, d1)[s0] -> (d0 + s0, d1 * 2)
    let m = AffineMap {
        num_dims: 2,
        num_syms: 1,
        exprs: vec![
            AffineExpr::Add(Box::new(AffineExpr::Dim(0)), Box::new(AffineExpr::Sym(0))),
            AffineExpr::Mul(Box::new(AffineExpr::Dim(1)), Box::new(AffineExpr::Const(2))),
        ],
    };
    assert_eq!(m.eval(&[5, 7], &[10]), vec![15, 14]);
    assert_eq!(AffineMap::identity(3).eval(&[1, 2, 3], &[]), vec![1, 2, 3]);
}

#[test]
fn euclidean_floordiv_and_mod() {
    let fd = AffineExpr::FloorDiv(Box::new(AffineExpr::Dim(0)), Box::new(AffineExpr::Const(4)));
    let m = AffineExpr::Mod(Box::new(AffineExpr::Dim(0)), Box::new(AffineExpr::Const(4)));
    // -1 floordiv 4 == -1, -1 mod 4 == 3
    assert_eq!(fd.eval(&[-1], &[]), -1);
    assert_eq!(m.eval(&[-1], &[]), 3);
}

#[test]
fn box_contains_and_intersect() {
    let a = BoxSet::new(vec![0, 0], vec![3, 3]);
    let b = BoxSet::new(vec![2, 2], vec![5, 5]);
    assert!(a.contains(&[1, 2]));
    assert!(!a.contains(&[4, 0]));
    assert_eq!(a.origin(), &[0, 0]);
    assert_eq!(a.intersect(&b), Some(BoxSet::new(vec![2, 2], vec![3, 3])));

    let disjoint = BoxSet::new(vec![10, 10], vec![11, 11]);
    assert_eq!(a.intersect(&disjoint), None);
}

#[test]
fn affine_set_membership() {
    // { (d0) : d0 >= 0, 7 - d0 >= 0 }  ==  0 <= d0 <= 7
    let set = AffineSet {
        num_dims: 1,
        num_syms: 0,
        constraints: vec![
            Constraint { expr: AffineExpr::Dim(0), kind: ConstraintKind::GreaterEq },
            Constraint {
                expr: AffineExpr::Add(
                    Box::new(AffineExpr::Const(7)),
                    Box::new(AffineExpr::Mul(
                        Box::new(AffineExpr::Const(-1)),
                        Box::new(AffineExpr::Dim(0)),
                    )),
                ),
                kind: ConstraintKind::GreaterEq,
            },
        ],
    };
    assert!(set.contains(&[0], &[]));
    assert!(set.contains(&[7], &[]));
    assert!(!set.contains(&[8], &[]));
    assert!(!set.contains(&[-1], &[]));
}

#[test]
fn intersection_points_lie_in_both_boxes() {
    let a = BoxSet::new(vec![-2, 0], vec![4, 6]);
    let b = BoxSet::new(vec![1, -3], vec![9, 2]);
    let i = a.intersect(&b).unwrap();
    for x in -4..11 {
        for y in -4..8 {
            assert_eq!(i.contains(&[x, y]), a.contains(&[x, y]) && b.contains(&[x, y]));
        }
    }
}

#[test]
fn equality_constraint_and_symbols() {
    // { (d0)[s0] : d0 - s0 == 0 }
    let set = AffineSet {
        num_dims: 1,
        num_syms: 1,
        constraints: vec![Constraint {
            expr: AffineExpr::Add(
                Box::new(AffineExpr::Dim(0)),
                Box::new(AffineExpr::Mul(Box::new(AffineExpr::Const(-1)), Box::new(AffineExpr::Sym(0)))),
            ),
            kind: ConstraintKind::Equal,
        }],
    };
    assert!(set.contains(&[5], &[5]));
    assert!(!set.contains(&[5], &[4]));
}
