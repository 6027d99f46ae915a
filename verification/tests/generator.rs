use noisepass::generator::Generator;

#[test]
fn threshold_for_base_two_length_eight() {
    let g = Generator::new(vec![48u8, 49], 8);
    assert_eq!(g.threshold(), 9);
}

#[test]
fn threshold_for_singleton_charset() {
    let g = Generator::new(vec![97u8], 5);
    assert_eq!(g.threshold(), 1);
}

#[test]
fn zero_valued_block_decodes_to_first_character() {
    let mut g = Generator::new(vec![48u8, 49], 1);
    assert_eq!(g.threshold(), 2);
    let out = g.push(&vec![false, false]);
    assert_eq!(out, vec![vec![48u8]]);
}

#[test]
fn one_valued_block_decodes_to_second_character() {
    let mut g = Generator::new(vec![48u8, 49], 1);
    let out = g.push(&vec![true, false]);
    assert_eq!(out, vec![vec![49u8]]);
}

#[test]
fn multiple_passwords_per_push_and_leftover_bits() {
    let mut g = Generator::new(vec![48u8, 49], 1);
    let out = g.push(&vec![true, false, false, true, true]);
    assert_eq!(out, vec![vec![49u8], vec![48u8]]);
    let out2 = g.push(&vec![false]);
    assert_eq!(out2, vec![vec![49u8]]);
}

#[test]
fn short_push_yields_nothing() {
    let mut g = Generator::new(vec![48u8, 49], 8);
    let out = g.push(&vec![true, true, true]);
    assert!(out.is_empty());
}

#[test]
fn deterministic_across_runs() {
    let mut bits: Vec<bool> = Vec::new();
    let mut i = 0;
    while i < 64 {
        bits.push((i * 7) % 3 == 0);
        i += 1;
    }
    let mut g1 = Generator::new(vec![97u8, 98, 99], 4);
    let mut g2 = Generator::new(vec![97u8, 98, 99], 4);
    let out1 = g1.push(&bits);
    let out2 = g2.push(&bits);
    assert_eq!(out1, out2);
    assert!(!out1.is_empty());
    for pwd in &out1 {
        assert_eq!(pwd.len(), 4);
        for &c in pwd {
            assert!(c == 97 || c == 98 || c == 99);
        }
    }
}
