use xensieve::util::gcd;
use xensieve::util::AbsMax;
use xensieve::util::intersection;
use xensieve::util::meziriac;

#[test]
fn test_gcd_a() {
    assert_eq!(gcd(14, 15).unwrap(), 1);
}

#[test]
fn test_gcd_b() {
    assert_eq!(gcd(12, 8).unwrap(), 4);
}

#[test]
fn test_gcd_c() {
    let a = 2 * 3 * 5 * 11 * 17;
    let b = 3 * 7 * 11 * 13 * 19;
    assert_eq!(gcd(a, b).unwrap(), 3 * 11);
}

#[test]
fn test_gcd_d() {
    assert_eq!(gcd(12, 0).is_err(), true);
}

#[test]
fn test_gcd_e() {
    assert_eq!(gcd(0, 3).is_err(), true);
}

#[test]
fn test_intersection_a() {
    assert_eq!(intersection(0, 0, 2, 3).unwrap(), (0, 0));
}

#[test]
fn test_intersection_b() {
    // 281 is the one shift in [0, 360) lying in both 45@11 and 40@1.
    assert_eq!(intersection(45, 40, 11, 1).unwrap(), (360, 281));
}

#[test]
fn test_intersection_shift_order() {
    // both operand orders give the same combined class
    assert_eq!(intersection(40, 45, 1, 11).unwrap(), (360, 281));
}

#[test]
fn test_meziriac_a() {
    assert_eq!(meziriac(1, 1).unwrap(), 1);
    assert_eq!(meziriac(10, 1).unwrap(), 1);
    assert_eq!(meziriac(10, 10).unwrap(), 0);
    assert_eq!(meziriac(12, 12).unwrap(), 0);
    assert_eq!(meziriac(3, 11).unwrap(), 4);
    assert_eq!(meziriac(20, 9).unwrap(), 5);
    assert_eq!(meziriac(101, 13).unwrap(), 4);
}

#[test]
fn test_intersection_negative_modulus() {
    assert_eq!(intersection(-3, 5, 0, 0).is_err(), true);
    assert_eq!(intersection(-3, 0, 0, 0).unwrap(), (0, 0));
}

#[test]
fn test_intersection_no_solution() {
    assert_eq!(intersection(5, 10, 2, 3).unwrap(), (0, 0));
}

#[test]
fn test_abs_max() {
    assert_eq!(AbsMax::abs(-7i128), 7);
    assert_eq!(AbsMax::abs(7i64), 7);
    assert_eq!(AbsMax::abs(-7i8), 7);
    assert_eq!(AbsMax::abs(9u32), 9);
    assert_eq!(<i16 as AbsMax>::max_value(), i16::MAX);
    assert_eq!(<u128 as AbsMax>::max_value(), u128::MAX);
}
