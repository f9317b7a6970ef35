use xensieve::Residual;

#[test]
fn test_residual_a() {
    let r1 = Residual::new(3, 0);
    assert_eq!(r1.to_string(), String::from("3@0"));
}

#[test]
fn test_residual_b() {
    let r1 = Residual::new(0, 2);
    assert_eq!(r1.to_string(), "0@0");
}

#[test]
fn test_residual_to_string_a() {
    let r1 = Residual::new(3, 0);
    assert_eq!(r1.to_string(), "3@0");
}

#[test]
fn test_residual_to_string_b() {
    let r1 = Residual::new(8, 3);
    assert_eq!(r1.to_string(), "8@3");
}

#[test]
fn test_residual_to_string_c() {
    let r1 = Residual::new(5, 8);
    assert_eq!(r1.to_string(), "5@3");
}

#[test]
fn test_residual_to_string_d() {
    let r1 = Residual::new(5, 9);
    assert_eq!(r1.to_string(), "5@4");
}

#[test]
fn test_residual_to_string_e() {
    let r1 = Residual::new(5, 10);
    assert_eq!(r1.to_string(), "5@0");
}

#[test]
fn test_residual_eq_a() {
    let r1 = Residual::new(5, 2);
    let r2 = Residual::new(5, 3);
    assert_eq!(r1 == r2, false);
    assert_eq!(r1 != r2, true);
}

#[test]
fn test_residual_eq_b() {
    let r1 = Residual::new(5, 2);
    let r2 = Residual::new(5, 2);
    assert_eq!(r1 == r2, true);
    assert_eq!(r1 != r2, false);
}

#[test]
fn test_residual_ord_a() {
    let r1 = Residual::new(5, 2);
    let r2 = Residual::new(5, 3);
    assert!(r1 < r2);
}

#[test]
fn test_residual_ord_b() {
    let r1 = Residual::new(2, 3);
    let r2 = Residual::new(5, 3);
    assert!(r1 < r2);
}

#[test]
fn test_residual_ord_c() {
    let r1 = Residual::new(5, 3);
    let r2 = Residual::new(5, 3);
    assert!(r1 == r2);
}

#[test]
fn test_residual_bitand_a() {
    let r1 = Residual::new(4, 0);
    let r2 = Residual::new(3, 0);
    assert_eq!(r1.merge(r2).to_string(), "12@0");
}

#[test]
fn test_residual_bitand_b() {
    let r1 = Residual::new(4, 0);
    let r2 = Residual::new(3, 1);
    assert_eq!(r1.merge(r2).to_string(), "12@4");
}

#[test]
fn test_residual_bitand_c() {
    let r1 = Residual::new(5, 2);
    let r2 = Residual::new(10, 3);
    assert_eq!(r1.merge(r2).to_string(), "0@0");
}

#[test]
fn test_residual_bitand_d() {
    let r1 = Residual::new(3, 2);
    let r2 = Residual::new(3, 1);
    assert_eq!(r1.merge(r2).to_string(), "0@0");
}

#[test]
fn test_residual_contains_a() {
    let r1 = Residual::new(3, 0);
    assert_eq!(r1.contains(-3), true);
    assert_eq!(r1.contains(-2), false);
    assert_eq!(r1.contains(-1), false);
    assert_eq!(r1.contains(0), true);
    assert_eq!(r1.contains(1), false);
    assert_eq!(r1.contains(2), false);
    assert_eq!(r1.contains(3), true);
    assert_eq!(r1.contains(4), false);
    assert_eq!(r1.contains(5), false);
}

#[test]
fn test_residual_contains_b() {
    let r1 = Residual::new(0, 0);
    assert_eq!(r1.contains(-2), false);
    assert_eq!(r1.contains(-1), false);
    assert_eq!(r1.contains(0), false);
    assert_eq!(r1.contains(1), false);
    assert_eq!(r1.contains(2), false);
    assert_eq!(r1.contains(3), false);
}

#[test]
fn test_residual_contains_c() {
    let r1 = Residual::new(3, 1);
    assert_eq!(r1.contains(-3), false);
    assert_eq!(r1.contains(-2), true);
    assert_eq!(r1.contains(-1), false);
    assert_eq!(r1.contains(0), false);
    assert_eq!(r1.contains(1), true);
    assert_eq!(r1.contains(2), false);
    assert_eq!(r1.contains(3), false);
    assert_eq!(r1.contains(4), true);
}

#[test]
fn test_residual_normalizes_fields() {
    let r1 = Residual::new(5, 8);
    assert_eq!(r1.modulus, 5);
    assert_eq!(r1.shift, 3);
    let r2 = Residual::new(0, 7);
    assert_eq!(r2.modulus, 0);
    assert_eq!(r2.shift, 0);
    let r3 = Residual::new(5, -3);
    assert_eq!(r3.shift, 2);
}

#[test]
fn test_residual_merge_window() {
    let r1 = Residual::new(4, 0);
    let r2 = Residual::new(3, 1);
    let merged = r1.merge(r2);
    for v in -40..40 {
        assert_eq!(merged.contains(v), r1.contains(v) && r2.contains(v));
    }
}

#[test]
fn test_residual_merge_window_left_shift_larger() {
    // the left shift exceeds the right one; the lift keeps its sign
    let r1 = Residual::new(45, 11);
    let r2 = Residual::new(40, 1);
    let merged = r1.merge(r2);
    assert_eq!(merged.to_string(), "360@281");
    for v in 0..800 {
        assert_eq!(merged.contains(v), r1.contains(v) && r2.contains(v));
    }
}

#[test]
fn test_residual_merge_commutes() {
    for (a, b) in [((45, 11), (40, 1)), ((4, 0), (3, 1)), ((3, 2), (3, 1)), ((0, 0), (5, 2))] {
        let r1 = Residual::new(a.0, a.1);
        let r2 = Residual::new(b.0, b.1);
        assert_eq!(r1.merge(r2), r2.merge(r1));
    }
}

#[test]
fn test_residual_merge_empty_window() {
    let r1 = Residual::new(3, 1);
    let r2 = Residual::new(3, 2);
    let merged = r1.merge(r2);
    assert_eq!(merged.to_string(), "0@0");
    for v in -40..40 {
        assert_eq!(merged.contains(v), false);
        assert_eq!(r1.contains(v) && r2.contains(v), false);
    }
}
