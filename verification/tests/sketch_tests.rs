use smol_gather::Fraction;
use smol_gather::SketchError;
use smol_gather::sketch::ScaledMinHash;

#[test]
fn new_derives_max_hash_from_scaled() {
    let s = ScaledMinHash::new(21, 1000, None, None);
    assert_eq!(s.k, 21);
    assert_eq!(s.max_hash, u64::MAX / 1000);
    assert_eq!(s.size(), 0);

    let exact = ScaledMinHash::new(4, 1, None, None);
    assert_eq!(exact.max_hash, u64::MAX);
}

#[test]
fn add_filters_by_cutoff_and_deduplicates() {
    let mut s = ScaledMinHash::with_max_hash(4, 10);
    s.add(5);
    s.add(10);
    s.add(11);
    s.add(5);
    assert_eq!(s.size(), 2);
}

#[test]
fn containment_of_sketch_in_itself_is_one() {
    let mut a = ScaledMinHash::with_max_hash(4, 100);
    a.add(1);
    a.add(2);
    a.add(3);
    let f = a.containment(&a).unwrap();
    assert_eq!(f, Fraction { numerator: 3, denominator: 3 });
}

#[test]
fn containment_half_scenario() {
    let mut r = ScaledMinHash::with_max_hash(4, 100);
    r.add(1);
    r.add(2);
    r.add(3);
    let mut q = ScaledMinHash::with_max_hash(4, 100);
    q.add(2);
    q.add(3);
    q.add(4);
    q.add(5);
    let f = q.containment(&r).unwrap();
    assert_eq!(f, Fraction { numerator: 2, denominator: 4 });
}

#[test]
fn containment_rejects_incompatible_sketches() {
    let a = ScaledMinHash::with_max_hash(4, 100);
    let b = ScaledMinHash::with_max_hash(5, 100);
    assert_eq!(a.containment(&b), Err(SketchError::IncompatibleSketch));
    let c = ScaledMinHash::with_max_hash(4, 99);
    assert_eq!(a.containment(&c), Err(SketchError::IncompatibleSketch));
}

#[test]
fn empty_sketch_containment_counts_as_zero() {
    let q = ScaledMinHash::with_max_hash(4, 100);
    let mut r = ScaledMinHash::with_max_hash(4, 100);
    r.add(7);
    let f = q.containment(&r).unwrap();
    assert_eq!(f, Fraction { numerator: 0, denominator: 0 });
    assert!(!f.gt(&Fraction { numerator: 0, denominator: 1 }));
    assert!(!f.gt(&Fraction { numerator: 1, denominator: 10 }));
}

#[test]
fn subtract_removes_shared_hashes() {
    let mut q = ScaledMinHash::with_max_hash(4, 100);
    q.add(2);
    q.add(3);
    q.add(4);
    q.add(5);
    let mut r = ScaledMinHash::with_max_hash(4, 100);
    r.add(1);
    r.add(2);
    r.add(3);
    q.subtract(&r).unwrap();
    assert_eq!(q.size(), 2);
    // nothing of r is left in q: the intersection is empty
    let f = q.containment(&r).unwrap();
    assert_eq!(f, Fraction { numerator: 0, denominator: 2 });
}

#[test]
fn subtract_rejects_incompatible_and_leaves_sketch_alone() {
    let mut q = ScaledMinHash::with_max_hash(4, 100);
    q.add(2);
    let r = ScaledMinHash::with_max_hash(9, 100);
    assert_eq!(q.subtract(&r), Err(SketchError::IncompatibleSketch));
    assert_eq!(q.size(), 1);
}

#[test]
fn fraction_gt_compares_by_cross_multiplication() {
    let half = Fraction { numerator: 1, denominator: 2 };
    let third = Fraction { numerator: 1, denominator: 3 };
    assert!(half.gt(&third));
    assert!(!third.gt(&half));
    assert!(!half.gt(&half));
    let zero = Fraction { numerator: 0, denominator: 4 };
    assert!(third.gt(&zero));
}

#[test]
fn duplicate_preserves_everything() {
    let mut s = ScaledMinHash::new(4, 2, Some("a name".to_string()), Some("a/path".to_string()));
    s.add(1);
    s.add(9);
    let d = s.duplicate();
    assert_eq!(d.k, s.k);
    assert_eq!(d.max_hash, s.max_hash);
    assert_eq!(d.hashes, s.hashes);
    assert_eq!(d.name, s.name);
    assert_eq!(d.filename, s.filename);
}
