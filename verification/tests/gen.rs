use noisepass::gen::{decode, generate, hash, hash_block};
use num_bigint::BigUint;

#[test]
fn block_bit_is_xor_fold_low_bit() {
    let data = vec![3u8, 1, 0, 255];
    assert!(hash_block(&data, 0, 1));
    assert!(hash_block(&data, 1, 2));
    assert!(!hash_block(&data, 0, 2));
    assert!(!hash_block(&data, 2, 3));
    assert!(!hash_block(&data, 0, 0));
    assert!(hash_block(&data, 1, 3));
    assert!(!hash_block(&data, 1, 4));
}

#[test]
fn decode_is_least_significant_digit_first() {
    let charset = vec![97u8, 98, 99];
    let pwd = decode(BigUint::from(5u32), &charset, 2);
    assert_eq!(pwd, vec![99u8, 98]);
}

#[test]
fn decode_of_zero_repeats_first_character() {
    let charset = vec![97u8, 98, 99];
    assert_eq!(decode(BigUint::from(0u32), &charset, 3), vec![97u8, 97, 97]);
}

#[test]
fn hash_reads_block_bits_little_endian() {
    let data = vec![1u8, 0, 0, 0, 0, 0, 0, 0, 0];
    assert_eq!(hash(&data, 2, 8), BigUint::from(1u32));
    let data2 = vec![0u8, 0, 0, 0, 0, 0, 0, 0, 1];
    assert_eq!(hash(&data2, 2, 8), BigUint::from(256u32));
}

#[test]
fn hash_folds_whole_blocks() {
    let data = vec![1u8, 1, 0, 0, 0, 0, 0, 0, 0, 0, 0, 0, 0, 0, 0, 0, 0, 0];
    assert_eq!(hash(&data, 2, 8), BigUint::from(0u32));
    let data2 = vec![1u8, 0, 0, 0, 0, 0, 0, 0, 0, 0, 0, 0, 0, 0, 0, 0, 0, 0];
    assert_eq!(hash(&data2, 2, 8), BigUint::from(1u32));
}

#[test]
fn generate_end_to_end() {
    let charset = vec![48u8, 49];
    let data = vec![1u8, 0, 0, 0, 0, 0, 0, 0, 0];
    let pwd = generate(&data, &charset, 8);
    assert_eq!(pwd, vec![49u8, 48, 48, 48, 48, 48, 48, 48]);
}
