use north_pole::ulids::{
    convert_ulids_to_uuids, count_stamps, parse_ulids, process_ulids, stamp, timestamp_ms,
    uuids_of, Stamp, Task3Output,
};

fn texts(list: &[&str]) -> Vec<String> {
    list.iter().map(|s| s.to_string()).collect()
}

const SAMPLE: [&str; 9] = [
    "00WEGGF0G0J5HEYXS3D7RWZGV8",
    "76EP4G39R8JD1N8AQNYDVJBRCF",
    "018CJ7KMG0051CDCS3B7BFJ3AK",
    "00Y986KPG0AMGB78RD45E9109K",
    "010451HTG0NYWMPWCEXG6AJ8F2",
    "01HH9SJEG0KY16H81S3N1BMXM4",
    "01HH9SJEG0P9M22Z9VGHH9C8CX",
    "017F8YY0G0NQA16HHC2QT5JD6X",
    "03QCPC7P003V1NND3B3QJW72QJ",
];

// 2023-12-12 00:00:00 UTC
const NOW_MS: i64 = 1_702_339_200_000;

#[test]
fn day_12_task2() {
    let out = convert_ulids_to_uuids(&texts(&[
        "01BJQ0E1C3Z56ABCD0E11HYX4M",
        "01BJQ0E1C3Z56ABCD0E11HYX5N",
        "01BJQ0E1C3Z56ABCD0E11HYX6Q",
        "01BJQ0E1C3Z56ABCD0E11HYX7R",
        "01BJQ0E1C3Z56ABCD0E11HYX8P",
    ]));
    assert_eq!(
        out,
        Some(texts(&[
            "015cae07-0583-f94c-a5b1-a070431f7516",
            "015cae07-0583-f94c-a5b1-a070431f74f8",
            "015cae07-0583-f94c-a5b1-a070431f74d7",
            "015cae07-0583-f94c-a5b1-a070431f74b5",
            "015cae07-0583-f94c-a5b1-a070431f7494",
        ]))
    );
}

#[test]
fn day_12_task3() {
    let out = process_ulids(&texts(&SAMPLE), 5, NOW_MS);
    assert_eq!(
        out,
        Some(Task3Output { christmas_eve: 3, weekday: 1, in_the_future: 2, lsb_is_1: 5 })
    );
}

#[test]
fn a_text_that_is_no_ulid_gives_none() {
    assert_eq!(convert_ulids_to_uuids(&texts(&["01BJQ0E1C3Z56ABCD0E11HYX4M", "nope"])), None);
    assert_eq!(parse_ulids(&texts(&["01BJQ0E1C3Z56ABCD0E11HYX4U"])), None);
    assert_eq!(process_ulids(&texts(&["", "01BJQ0E1C3Z56ABCD0E11HYX4M"]), 0, NOW_MS), None);
    assert_eq!(convert_ulids_to_uuids(&Vec::new()), Some(Vec::new()));
}

#[test]
fn a_weekday_over_six_gives_none() {
    assert_eq!(process_ulids(&texts(&SAMPLE), 7, NOW_MS), None);
    assert_eq!(process_ulids(&Vec::new(), 255, NOW_MS), None);
    assert_eq!(
        process_ulids(&Vec::new(), 6, NOW_MS),
        Some(Task3Output { christmas_eve: 0, weekday: 0, in_the_future: 0, lsb_is_1: 0 })
    );
}

#[test]
fn each_weekday_is_counted_from_monday() {
    let sample = texts(&SAMPLE);
    let per_day: Vec<u64> =
        (0..7).map(|d| process_ulids(&sample, d, NOW_MS).unwrap().weekday).collect();
    assert_eq!(per_day, vec![0, 3, 0, 1, 1, 1, 3]);
}

#[test]
fn the_future_goes_by_now() {
    let sample = texts(&SAMPLE);
    assert_eq!(process_ulids(&sample, 0, -1).unwrap().in_the_future, 9);
    assert_eq!(process_ulids(&sample, 0, 0).unwrap().in_the_future, 9);
    assert_eq!(process_ulids(&sample, 0, 977_659_199_999).unwrap().in_the_future, 9);
    assert_eq!(process_ulids(&sample, 0, 977_659_200_000).unwrap().in_the_future, 8);
    assert_eq!(process_ulids(&sample, 0, 4_102_444_800_000).unwrap().in_the_future, 1);
    assert_eq!(process_ulids(&sample, 0, i64::MAX).unwrap().in_the_future, 0);
}

#[test]
fn stamps_carry_the_day_of_the_timestamp() {
    let values = parse_ulids(&texts(&SAMPLE)).unwrap();
    assert_eq!(timestamp_ms(values[0]), 977_659_200_000);
    assert_eq!(timestamp_ms(u128::MAX), (1 << 48) - 1);
    assert_eq!(timestamp_ms(0), 0);
    let s = stamp(values[0]);
    assert_eq!(s, Stamp { value: values[0], weekday: 6, month: 12, day: 24 });
    let s = stamp(values[8]);
    assert_eq!((s.weekday, s.month, s.day), (4, 1, 1));
    assert_eq!((stamp(0).weekday, stamp(0).month, stamp(0).day), (3, 1, 1));
}

#[test]
fn stamps_are_counted_as_given() {
    let stamps = vec![
        Stamp { value: 1, weekday: 2, month: 12, day: 24 },
        Stamp { value: 2 << 80, weekday: 2, month: 12, day: 25 },
        Stamp { value: (5 << 80) | 3, weekday: 0, month: 11, day: 24 },
    ];
    assert_eq!(
        count_stamps(&stamps, 2, 1),
        Task3Output { christmas_eve: 1, weekday: 2, in_the_future: 2, lsb_is_1: 2 }
    );
    assert_eq!(
        count_stamps(&stamps, 6, 5),
        Task3Output { christmas_eve: 1, weekday: 0, in_the_future: 0, lsb_is_1: 2 }
    );
}

#[test]
fn uuids_are_hex_in_five_groups_last_value_first() {
    assert_eq!(
        uuids_of(&vec![0, u128::MAX, 0xa1a2a3a4b1b2c1c2d1d2d3d4d5d6d7d8]),
        texts(&[
            "a1a2a3a4-b1b2-c1c2-d1d2-d3d4d5d6d7d8",
            "ffffffff-ffff-ffff-ffff-ffffffffffff",
            "00000000-0000-0000-0000-000000000000",
        ])
    );
    assert_eq!(uuids_of(&vec![0x1f]), texts(&["00000000-0000-0000-0000-00000000001f"]));
}

#[test]
fn the_weekday_goes_round_with_the_days_since_1970() {
    let day: u128 = 86_400_000;
    for d in 0..40u128 {
        let want = ((d + 3) % 7) as u8;
        assert_eq!(stamp((d * day) << 80).weekday, want);
        assert_eq!(stamp(((d + 1) * day - 1) << 80).weekday, want);
    }
    // the last moment that a ULID can hold
    let last: u128 = (1 << 48) - 1;
    assert_eq!(stamp(last << 80).weekday, ((last / day + 3) % 7) as u8);
    assert_eq!(stamp(u128::MAX).weekday, ((last / day + 3) % 7) as u8);
}
