use launch::timeline::{parse_freezes, removable_freezes, subtract_ranges, TimeRange};

/// Seconds as the microseconds that `TimeRange` holds.
fn us(seconds: f64) -> u64 {
    (seconds * 1_000_000.0).round() as u64
}

#[test]
fn parses_freezedetect_output() {
    let stderr = "\
[freezedetect @ 0x123] freeze_start: 1.25
[freezedetect @ 0x123] freeze_duration: 2.50
[freezedetect @ 0x123] freeze_end: 3.75
[freezedetect @ 0x123] freeze_start: 8.00";

    assert_eq!(
        parse_freezes(stderr, Some(us(10.0))),
        vec![
            TimeRange {
                start: us(1.25),
                end: us(3.75)
            },
            TimeRange {
                start: us(8.0),
                end: us(10.0)
            }
        ]
    );
}

#[test]
fn subtracts_removed_ranges_from_source() {
    let kept = subtract_ranges(
        TimeRange {
            start: us(0.0),
            end: us(10.0),
        },
        &vec![
            TimeRange {
                start: us(2.0),
                end: us(4.0),
            },
            TimeRange {
                start: us(6.0),
                end: us(8.0),
            },
        ],
    );

    assert_eq!(
        kept,
        vec![
            TimeRange {
                start: us(0.0),
                end: us(2.0)
            },
            TimeRange {
                start: us(4.0),
                end: us(6.0)
            },
            TimeRange {
                start: us(8.0),
                end: us(10.0)
            }
        ]
    );
}

#[test]
fn keeps_context_around_freezes() {
    let removed = removable_freezes(
        TimeRange {
            start: us(0.0),
            end: us(12.0),
        },
        &vec![TimeRange {
            start: us(3.0),
            end: us(9.0),
        }],
        us(0.5),
    );

    assert_eq!(
        removed,
        vec![TimeRange {
            start: us(3.5),
            end: us(8.5)
        }]
    );
}
