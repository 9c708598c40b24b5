use hll::{Sketch, SketchError};

fn bytes_of(i: u64) -> [u8; 8] {
    i.to_le_bytes()
}

#[test]
fn construction_rejects_out_of_range_precision() {
    assert!(matches!(Sketch::new(3), Err(SketchError::InvalidPrecision)));
    assert!(matches!(Sketch::new(19), Err(SketchError::InvalidPrecision)));
    assert!(matches!(Sketch::new(0), Err(SketchError::InvalidPrecision)));
    assert!(Sketch::new(4).is_ok());
    assert!(Sketch::new(18).is_ok());
}

#[test]
fn fresh_sketch_is_all_zero() {
    let s = Sketch::new(10).unwrap();
    assert_eq!(s.precision(), 10);
    assert_eq!(s.register_count(), 1024);
    let bytes = s.serialize();
    assert_eq!(bytes.len(), 2 + 1024);
    assert!(bytes[2..].iter().all(|&b| b == 0));
    assert_eq!(s.estimate(), 0);
}

#[test]
fn add_same_item_twice_changes_nothing() {
    let mut s = Sketch::new(10).unwrap();
    for i in 1u64..=20 {
        s.add_bytes(&bytes_of(i));
    }
    let before = s.serialize();
    let est_before = s.estimate();
    for i in 1u64..=20 {
        s.add_bytes(&bytes_of(i));
    }
    assert_eq!(s.serialize(), before);
    assert_eq!(s.estimate(), est_before);
}

#[test]
fn merge_rejects_precision_mismatch() {
    let mut a = Sketch::new(10).unwrap();
    let b = Sketch::new(12).unwrap();
    a.add_bytes(b"left");
    let before = a.serialize();
    assert!(matches!(a.merge(&b), Err(SketchError::PrecisionMismatch)));
    assert_eq!(a.serialize(), before);
}

#[test]
fn merge_is_commutative_on_registers() {
    let mut a = Sketch::new(10).unwrap();
    let mut b = Sketch::new(10).unwrap();
    for i in 1u64..=300 {
        a.add_bytes(&bytes_of(i));
    }
    for i in 200u64..=500 {
        b.add_bytes(&bytes_of(i));
    }
    let mut ab = a.duplicate();
    ab.merge(&b).unwrap();
    let mut ba = b.duplicate();
    ba.merge(&a).unwrap();
    assert_eq!(ab.serialize(), ba.serialize());
}

#[test]
fn merge_with_self_is_identity() {
    let mut a = Sketch::new(10).unwrap();
    for i in 1u64..=100 {
        a.add_bytes(&bytes_of(i));
    }
    let copy = a.duplicate();
    let before = a.serialize();
    a.merge(&copy).unwrap();
    assert_eq!(a.serialize(), before);
}

#[test]
fn merge_estimates_the_union() {
    let mut a = Sketch::new(14).unwrap();
    let mut b = Sketch::new(14).unwrap();
    for i in 1u64..=5000 {
        a.add_bytes(&bytes_of(i));
    }
    for i in 4001u64..=9000 {
        b.add_bytes(&bytes_of(i));
    }
    a.merge(&b).unwrap();
    let est = a.estimate();
    // the union holds 9000 distinct items, not 5000 + 5000
    assert!(est >= 8730 && est <= 9270, "union estimate {est} is not near 9000");
}

#[test]
fn generic_add_accepts_any_hashable_item() {
    let mut s = Sketch::new(12).unwrap();
    for i in 0u64..1000 {
        s.add(&i);
    }
    let est = s.estimate();
    assert!(est >= 900 && est <= 1100, "estimate {est} is not near 1000");
}

#[test]
fn duplicate_reproduces_the_sketch() {
    let mut s = Sketch::new(8).unwrap();
    for i in 1u64..=64 {
        s.add_bytes(&bytes_of(i));
    }
    let d = s.duplicate();
    assert_eq!(d.precision(), s.precision());
    assert_eq!(d.serialize(), s.serialize());
}
