use noisepass::bit_vec::BitVec;

#[test]
fn single_one_bit_drains_to_one() {
    let mut bv = BitVec::new(8);
    bv.push_one();
    assert_eq!(bv.len(), 1);
    let bytes = bv.reset();
    assert_eq!(bytes, vec![1u8]);
}

#[test]
fn nine_one_bits_drain_to_511() {
    let mut bv = BitVec::new(16);
    let mut pushed = 0;
    while pushed < 9 {
        bv.push_one();
        pushed += 1;
    }
    assert_eq!(bv.len(), 9);
    let bytes = bv.reset();
    assert_eq!(bytes, vec![255u8, 1u8]);
    let mut value: u64 = 0;
    let mut place: u32 = 0;
    for &b in &bytes {
        value += (b as u64) << (8 * place);
        place += 1;
    }
    assert_eq!(value, 511);
}

#[test]
fn reset_on_empty_is_zero_and_idempotent() {
    let mut bv = BitVec::new(0);
    let first = bv.reset();
    assert_eq!(first, vec![0u8]);
    assert_eq!(bv.len(), 0);
    let second = bv.reset();
    assert_eq!(second, vec![0u8]);
    assert_eq!(bv.len(), 0);
}

#[test]
fn bits_pack_lsb_first() {
    let mut bv = BitVec::new(8);
    bv.push_zero();
    bv.push_one();
    bv.push_one();
    let bytes = bv.reset();
    assert_eq!(bytes, vec![0b110u8]);
}

#[test]
fn byte_boundary_commits_low_byte() {
    let mut bv = BitVec::new(16);
    let mut pushed = 0;
    while pushed < 8 {
        bv.push_one();
        pushed += 1;
    }
    bv.push_zero();
    bv.push_one();
    assert_eq!(bv.len(), 10);
    let bytes = bv.reset();
    assert_eq!(bytes, vec![255u8, 0b10u8]);
}
