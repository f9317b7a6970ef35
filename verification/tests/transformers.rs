use xensieve::Sieve;

fn window(lo: i128, hi: i128) -> Vec<i128> {
    let mut v = Vec::new();
    let mut x = lo;
    while x <= hi {
        v.push(x);
        x += 1;
    }
    v
}

#[test]
fn test_iter_value_collects_members() {
    let s = Sieve::new("3@0|4@0").unwrap();
    let mut it = s.iter_value(window(0, 12));
    let mut got = Vec::new();
    while let Some(v) = it.next() {
        got.push(v);
    }
    assert_eq!(got, vec![0, 3, 4, 6, 8, 9, 12]);
}

#[test]
fn test_iter_value_offset_start() {
    let s = Sieve::new("3@0|4@0").unwrap();
    let mut it = s.iter_value(window(17, 40));
    assert_eq!(it.next().unwrap(), 18);
    assert_eq!(it.next().unwrap(), 20);
}

#[test]
fn test_iter_value_empty_sieve() {
    let s = Sieve::new("0@0").unwrap();
    let mut it = s.iter_value(window(0, 50));
    assert_eq!(it.next(), None);
}

#[test]
fn test_iter_state_maps_members() {
    let s = Sieve::new("3@0|4@0").unwrap();
    let mut it = s.iter_state(window(0, 6));
    let mut got = Vec::new();
    while let Some(b) = it.next() {
        got.push(b);
    }
    assert_eq!(got, vec![true, false, false, true, true, false, true]);
}

#[test]
fn test_iter_interval_gaps() {
    let s = Sieve::new("3@0|4@0").unwrap();
    let mut it = s.iter_interval(window(0, 12));
    let mut got = Vec::new();
    while let Some(d) = it.next() {
        got.push(d);
    }
    assert_eq!(got, vec![3, 1, 2, 2, 1, 3]);
}

#[test]
fn test_iter_interval_offset_start() {
    let s = Sieve::new("3@0|4@0").unwrap();
    let mut it = s.iter_interval(window(17, 40));
    assert_eq!(it.next().unwrap(), 2);
    assert_eq!(it.next().unwrap(), 1);
    assert_eq!(it.next().unwrap(), 3);
}

#[test]
fn test_iter_interval_single_member_yields_nothing() {
    let s = Sieve::new("100@7").unwrap();
    let mut it = s.iter_interval(window(0, 99));
    assert_eq!(it.next(), None);
}

#[test]
fn test_iter_interval_negative_values() {
    let s = Sieve::new("5@0").unwrap();
    let mut it = s.iter_interval(window(-12, 12));
    let mut got = Vec::new();
    while let Some(d) = it.next() {
        got.push(d);
    }
    assert_eq!(got, vec![5, 5, 5, 5]);
}
