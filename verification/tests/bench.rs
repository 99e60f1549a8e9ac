use litearrow::bench::{
    block_spans, hash, mixed_row, random, random_row, summary_positions, synthetic_event,
    telemetry_row,
};

#[test]
fn hash_mixes_known_values() {
    assert_eq!(hash(0), 0);
    assert_eq!(hash(1), 6_238_072_747_940_578_789);
    assert_eq!(hash(2), 15_839_785_061_582_574_730);
}

#[test]
fn workload_rows() {
    assert_eq!(telemetry_row(0), [1_735_689_600_000, 0, 389, 0, 1, 6_812]);
    assert_eq!(telemetry_row(3)[0], 1_735_689_603_000);
    assert_eq!(
        random_row(0),
        [
            6_238_072_747_940_578_789,
            -2_606_959_012_126_976_886,
            2_185_194_620_014_831_856,
            -5_213_918_032_843_888_364,
            -5_278_393_320_434_088_484,
            -3_353_203_050_545_663_124,
        ]
    );
    let row = mixed_row(7);
    assert_eq!(row.time, 1_735_689_607_000);
    assert_eq!(row.customer, 7);
    assert_eq!(row.cents, 7_604);
    assert_eq!(row.country, 2);
    assert!(row.success);
    assert!(!mixed_row(22).success);
}

#[test]
fn rows_split_into_blocks() {
    assert_eq!(block_spans(10, 4), vec![(0, 4), (4, 4), (8, 2)]);
    assert_eq!(block_spans(8, 4), vec![(0, 4), (4, 4)]);
    assert_eq!(block_spans(0, 4), vec![]);
    assert_eq!(block_spans(3, 100), vec![(0, 3)]);
}

#[test]
fn median_and_tail_positions() {
    assert_eq!(summary_positions(1), (0, 0));
    assert_eq!(summary_positions(21), (10, 19));
    assert_eq!(summary_positions(100), (50, 94));
    assert_eq!(summary_positions(usize::MAX), (usize::MAX / 2, usize::MAX / 100));
}

#[test]
fn generator_steps() {
    let mut state = 42;
    assert_eq!(random(&mut state), 9_039_304_369_631_583_587);
    assert_eq!(state, 9_039_304_369_631_583_587);
    let mut state = 42;
    assert_eq!(synthetic_event(0, &mut state), [1_735_689_600_000, 3_587, 360, 3, 2, 6_333]);
    assert_eq!(state, 459_824_130_525_332_694);
}
