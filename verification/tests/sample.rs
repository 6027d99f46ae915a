use noisepass::sample::Sample;

#[test]
fn u16_aggregates_to_bit_parity() {
    assert!(!0u16.aggregate_sample());
    assert!(1u16.aggregate_sample());
    assert!(!3u16.aggregate_sample());
    assert!(7u16.aggregate_sample());
    assert!(0x8000u16.aggregate_sample());
    assert!(!0xFFFFu16.aggregate_sample());
    assert!(!0x0101u16.aggregate_sample());
}

#[test]
fn i16_aggregates_like_its_bit_pattern() {
    assert!(!(-1i16).aggregate_sample());
    assert!(1i16.aggregate_sample());
    assert!(i16::MIN.aggregate_sample());
    assert!(!0i16.aggregate_sample());
}

#[test]
fn silence_is_the_zero_sample() {
    assert!(0u16.is_silent());
    assert!(!5u16.is_silent());
    assert!(0i16.is_silent());
    assert!(!(-3i16).is_silent());
}
