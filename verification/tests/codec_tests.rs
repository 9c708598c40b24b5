use hll::{Sketch, SketchError};

fn bytes_of(i: u64) -> [u8; 8] {
    i.to_le_bytes()
}

#[test]
fn round_trip_reproduces_registers_and_precision() {
    let mut s = Sketch::new(10).unwrap();
    for i in 1u64..=200 {
        s.add_bytes(&bytes_of(i));
    }
    let bytes = s.serialize();
    assert_eq!(bytes.len(), 2 + 1024);
    assert_eq!(bytes[0], 1);
    assert_eq!(bytes[1], 10);
    let t = Sketch::deserialize(&bytes).unwrap();
    assert_eq!(t.precision(), s.precision());
    assert_eq!(t.serialize(), bytes);
    assert_eq!(t.estimate(), s.estimate());
}

#[test]
fn deserialize_rejects_wrong_length() {
    // declared precision 10 demands 2 + 1024 bytes
    let mut bytes = vec![1u8, 10];
    bytes.extend(vec![0u8; 100]);
    assert!(matches!(
        Sketch::deserialize(&bytes),
        Err(SketchError::CorruptData)
    ));
    let long = vec![0u8; 2000];
    assert!(matches!(
        Sketch::deserialize(&long),
        Err(SketchError::CorruptData)
    ));
    assert!(matches!(
        Sketch::deserialize(&[]),
        Err(SketchError::CorruptData)
    ));
    assert!(matches!(
        Sketch::deserialize(&[1u8]),
        Err(SketchError::CorruptData)
    ));
}

#[test]
fn deserialize_rejects_wrong_version() {
    let mut bytes = vec![2u8, 4];
    bytes.extend(vec![0u8; 16]);
    assert!(matches!(
        Sketch::deserialize(&bytes),
        Err(SketchError::CorruptData)
    ));
}

#[test]
fn deserialize_rejects_out_of_range_precision() {
    let mut low = vec![1u8, 3];
    low.extend(vec![0u8; 8]);
    assert!(matches!(
        Sketch::deserialize(&low),
        Err(SketchError::CorruptData)
    ));
    let mut high = vec![1u8, 19];
    high.extend(vec![0u8; 16]);
    assert!(matches!(
        Sketch::deserialize(&high),
        Err(SketchError::CorruptData)
    ));
}

#[test]
fn deserialize_rejects_register_over_the_largest_rank() {
    // at precision 4 the largest rank is 61
    let mut bytes = vec![1u8, 4];
    bytes.extend(vec![0u8; 15]);
    bytes.push(62);
    assert!(matches!(
        Sketch::deserialize(&bytes),
        Err(SketchError::CorruptData)
    ));
    let mut ok = vec![1u8, 4];
    ok.extend(vec![0u8; 15]);
    ok.push(61);
    assert!(Sketch::deserialize(&ok).is_ok());
}

#[test]
fn merged_round_trip_matches_the_merge() {
    let mut a = Sketch::new(8).unwrap();
    let mut b = Sketch::new(8).unwrap();
    for i in 1u64..=100 {
        a.add_bytes(&bytes_of(i));
    }
    for i in 50u64..=150 {
        b.add_bytes(&bytes_of(i));
    }
    let restored = Sketch::deserialize(&a.serialize()).unwrap();
    let mut merged = restored;
    merged.merge(&b).unwrap();
    a.merge(&b).unwrap();
    assert_eq!(merged.serialize(), a.serialize());
}
