use hll::{get_first_x_bits, leftmost_pos, Sketch};

fn bytes_of(i: u64) -> [u8; 8] {
    i.to_le_bytes()
}

/// Build a sketch with chosen register values through its byte layout.
fn sketch_with_registers(p: u8, regs: &[u8]) -> Sketch {
    let mut bytes = vec![1u8, p];
    bytes.extend_from_slice(regs);
    Sketch::deserialize(&bytes).unwrap()
}

#[test]
fn single_add_estimates_one() {
    for p in [4usize, 6, 10, 14, 18] {
        for item in [b"a".as_slice(), b"hello world".as_slice(), &bytes_of(12345)] {
            let mut s = Sketch::new(p).unwrap();
            s.add_bytes(item);
            assert_eq!(s.estimate(), 1, "one item at precision {p}");
        }
    }
}

#[test]
fn small_range_linear_counting_is_exercised() {
    let mut s = Sketch::new(10).unwrap();
    for i in 1u64..=50 {
        s.add_bytes(&bytes_of(i));
    }
    let bytes = s.serialize();
    let zeros = bytes[2..].iter().filter(|&&b| b == 0).count();
    assert!(zeros > 0, "the small-range branch needs empty registers");
    let est = s.estimate();
    assert!(est >= 45 && est <= 55, "estimate {est} is not within 10% of 50");
}

#[test]
fn scaling_to_a_million_stays_within_two_percent() {
    let mut s = Sketch::new(14).unwrap();
    for i in 1u64..=1_000_000 {
        s.add_bytes(&bytes_of(i));
    }
    let est = s.estimate();
    assert!(
        est >= 980_000 && est <= 1_020_000,
        "estimate {est} is not within 2% of 1000000"
    );
}

#[test]
fn linear_counting_exact_value() {
    // 512 registers at rank 1, 512 at zero: linear counting gives
    // 1024 * ln(1024 / 512) in Q32 arithmetic rounded to nearest, which is 710.
    let mut regs = vec![1u8; 512];
    regs.extend(vec![0u8; 512]);
    let s = sketch_with_registers(10, &regs);
    assert_eq!(s.estimate(), 710);
}

#[test]
fn linear_counting_near_its_boundary_exact_value() {
    // 15 registers at rank 1 and a single zero: linear counting with one
    // empty register gives 16 * ln(16 / 1) rounded to nearest, which is 44.
    let mut regs = vec![1u8; 15];
    regs.push(0);
    let s = sketch_with_registers(4, &regs);
    assert_eq!(s.estimate(), 44);
}

#[test]
fn raw_branch_exact_value() {
    // All 16 registers at rank 1: no zero register, so the raw harmonic-mean
    // value stands: floor(7213 * 16^3 * 2 / (170790 * 16)) = 21.
    let s = sketch_with_registers(4, &[1u8; 16]);
    assert_eq!(s.estimate(), 21);
}

#[test]
fn large_range_exact_value() {
    // All 16 registers at rank 57: the raw value is about 0.0845 * 2^64,
    // over a thirtieth of the hash space, so the saturation correction
    // -2^64 * ln(1 - raw / 2^64) applies.
    let s = sketch_with_registers(4, &[57u8; 16]);
    assert_eq!(s.estimate(), 1627890277035278336);
}

#[test]
fn large_range_saturates_at_the_hash_space() {
    // All registers at the maximum rank: the raw value passes 2^64 and the
    // estimate clamps to the largest representable count.
    let s = sketch_with_registers(4, &[61u8; 16]);
    assert_eq!(s.estimate(), u64::MAX);
}

#[test]
fn empty_sketch_estimates_zero_at_every_precision() {
    for p in [4usize, 10, 18] {
        let s = Sketch::new(p).unwrap();
        assert_eq!(s.estimate(), 0, "empty sketch at precision {p}");
    }
}

#[test]
fn first_bits_take_the_top_of_the_word() {
    assert_eq!(get_first_x_bits(u64::MAX, 16), 0xFFFF);
    assert_eq!(get_first_x_bits(1u64 << 63, 1), 1);
    assert_eq!(get_first_x_bits(0x1234_5678_9ABC_DEF0, 16), 0x1234);
    assert_eq!(get_first_x_bits(42, 64), 42);
    assert_eq!(get_first_x_bits(1, 63), 0);
}

#[test]
fn leftmost_pos_finds_the_lowest_set_bit() {
    assert_eq!(leftmost_pos(0b1000, 0), 3);
    assert_eq!(leftmost_pos(0b1000, 3), 0);
    assert_eq!(leftmost_pos(0b1000, 2), 1);
    assert_eq!(leftmost_pos(1, 0), 0);
    assert_eq!(leftmost_pos(u64::MAX, 63), 0);
}

#[test]
fn leftmost_pos_clamps_when_no_bit_is_set() {
    assert_eq!(leftmost_pos(0, 0), 64);
    assert_eq!(leftmost_pos(0, 60), 4);
    assert_eq!(leftmost_pos(0b1000, 4), 60);
}
