use litearrow::compression::{decode, encode, pack, unpack, Encoding};

fn mask(width: u8) -> u64 {
    match width {
        0 => 0,
        64 => u64::MAX,
        width => (1_u64 << width) - 1,
    }
}

#[test]
fn lib_bit_packing_round_trips_every_width() {
    for width in 0..=64 {
        let maximum = mask(width);
        let values = [0, maximum / 3, maximum];
        assert_eq!(unpack(&pack(&values, width), values.len(), width), values);
    }
}

#[test]
fn mod_bit_packing_round_trips_every_width() {
    for width in 0..=64 {
        let maximum = mask(width);
        let values = [0, maximum / 3, maximum];
        assert_eq!(unpack(&pack(&values, width), values.len(), width), values);
    }
}

fn selector_cases() -> Vec<Vec<i64>> {
    vec![
        vec![7; 100],
        (0..100).map(|value| value * 1_000).collect(),
        vec![i64::MIN, 0, i64::MAX],
        vec![10, -10, 10, -10, 10],
    ]
}

#[test]
fn lib_selector_round_trips_distinct_integer_patterns() {
    for values in selector_cases() {
        let (encoding, bytes) = encode(&values).unwrap();
        assert_eq!(decode(encoding, &bytes, values.len()).unwrap(), values);
    }
}

#[test]
fn mod_selector_round_trips_distinct_integer_patterns() {
    for values in selector_cases() {
        let (encoding, bytes) = encode(&values).unwrap();
        assert_eq!(decode(encoding, &bytes, values.len()).unwrap(), values);
    }
}

fn timestamps() -> Vec<i64> {
    (0..1_000)
        .map(|row| 1_735_689_600_000 + row * 1_000)
        .collect()
}

#[test]
fn lib_selector_prefers_delta_of_delta_for_regular_timestamps() {
    let (encoding, _) = encode(&timestamps()).unwrap();
    assert!(matches!(encoding, Encoding::DeltaOfDelta { .. }));
}

#[test]
fn mod_selector_prefers_delta_of_delta_for_regular_timestamps() {
    let (encoding, _) = encode(&timestamps()).unwrap();
    assert!(matches!(encoding, Encoding::DeltaOfDelta { .. }));
}
