use std::rc::Rc;
use xensieve::Residual;
use xensieve::Sieve;
use xensieve::SieveNode;

#[test]
fn test_sieve_node_contains_a() {
    let r1 = Residual::new(3, 0);
    let s1 = SieveNode::Unit(r1);

    let pos = vec![-3, -2, -1, 0, 1];
    let val = vec![true, false, false, true, false];
    for (p, b) in pos.iter().zip(val.iter()) {
        assert_eq!(s1.contains(*p), *b);
    }
}

#[test]
fn test_sieve_node_contains_b() {
    let r1 = Residual::new(3, 0);
    let r2 = Residual::new(3, 1);
    let sn = SieveNode::Union(Rc::new(SieveNode::Unit(r1)), Rc::new(SieveNode::Unit(r2)));

    assert_eq!(sn.contains(-2), true);
    assert_eq!(sn.contains(-1), false);
    assert_eq!(sn.contains(0), true);
    assert_eq!(sn.contains(1), true);
    assert_eq!(sn.contains(2), false);
    assert_eq!(sn.contains(3), true);
    assert_eq!(sn.contains(4), true);
}

#[test]
fn test_sieve_node_contains_c() {
    let r1 = Residual::new(2, 0);
    let r2 = Residual::new(3, 0);
    let sn1 =
        SieveNode::Intersection(Rc::new(SieveNode::Unit(r1)), Rc::new(SieveNode::Unit(r2)));

    assert_eq!(sn1.contains(0), true);
    assert_eq!(sn1.contains(1), false);
    assert_eq!(sn1.contains(3), false);
    assert_eq!(sn1.contains(6), true);
}

#[test]
fn test_sieve_node_contains_d() {
    let r1 = Residual::new(2, 0);
    let r2 = Residual::new(3, 0);
    let sn1 = SieveNode::SymmetricDifference(
        Rc::new(SieveNode::Unit(r1)),
        Rc::new(SieveNode::Unit(r2)),
    );

    assert_eq!(sn1.contains(0), false);
    assert_eq!(sn1.contains(3), true);
    assert_eq!(sn1.contains(6), false);
}

#[test]
fn test_sieve_node_contains_e() {
    let r1 = Residual::new(3, 0);
    let sn1 = SieveNode::Inversion(Rc::new(SieveNode::Unit(r1)));

    assert_eq!(sn1.contains(0), false);
    assert_eq!(sn1.contains(1), true);
    assert_eq!(sn1.contains(2), true);
}

#[test]
fn test_sieve_bit_and_a() {
    let r1 = Residual::new(3, 0);
    let r2 = Residual::new(5, 0);
    let s1 = Sieve {
        root: Rc::new(SieveNode::Unit(r1)),
    };
    let s2 = Sieve {
        root: Rc::new(SieveNode::Unit(r2)),
    };

    let s3 = s1.intersect(&s2);
    assert_eq!(s3.to_string(), "Sieve{3@0&5@0}");
}

#[test]
fn test_sieve_combinators_eval() {
    let a = Sieve::from_node(SieveNode::Unit(Residual::new(2, 0)));
    let b = Sieve::from_node(SieveNode::Unit(Residual::new(3, 0)));
    for v in -12..12 {
        assert_eq!(a.intersect(&b).contains(v), a.contains(v) && b.contains(v));
        assert_eq!(a.union_with(&b).contains(v), a.contains(v) || b.contains(v));
        assert_eq!(
            a.symmetric_difference_with(&b).contains(v),
            a.contains(v) ^ b.contains(v)
        );
        assert_eq!(a.invert().contains(v), !a.contains(v));
    }
}

#[test]
fn test_sieve_double_inversion() {
    let a = Sieve::from_node(SieveNode::Unit(Residual::new(3, 1)));
    let twice = a.invert().invert();
    for v in -12..12 {
        assert_eq!(twice.contains(v), a.contains(v));
    }
    assert_eq!(twice.to_string(), "Sieve{!(!(3@1))}");
}

#[test]
fn test_sieve_to_string_operators() {
    let a = Sieve::from_node(SieveNode::Unit(Residual::new(3, 1)));
    let b = Sieve::from_node(SieveNode::Unit(Residual::new(4, 0)));
    assert_eq!(a.union_with(&b).to_string(), "Sieve{3@1|4@0}");
    assert_eq!(a.symmetric_difference_with(&b).to_string(), "Sieve{3@1^4@0}");
    assert_eq!(a.invert().to_string(), "Sieve{!(3@1)}");
}

#[test]
fn test_sieve_clone_shares_root() {
    let a = Sieve::from_node(SieveNode::Unit(Residual::new(3, 1)));
    let b = a.clone();
    assert_eq!(b.to_string(), a.to_string());
    for v in -9..9 {
        assert_eq!(b.contains(v), a.contains(v));
    }
}
