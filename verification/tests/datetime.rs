use eventfiles::datetime::{parse_rfc3339, resolve_berlin, CivilDateTime, ZonedDateTime};

fn civil(year: u16, month: u8, day: u8, hour: u8, minute: u8, second: u8) -> CivilDateTime {
    CivilDateTime { year, month, day, hour, minute, second }
}

#[test]
fn winter_time_resolves_to_plus_one() {
    let z = resolve_berlin(civil(2020, 12, 4, 22, 4, 0)).unwrap();
    assert_eq!(3600, z.offset_seconds);
    assert_eq!(civil(2020, 12, 4, 22, 4, 0), z.civil);
}

#[test]
fn summer_time_resolves_to_plus_two() {
    let z = resolve_berlin(civil(2020, 7, 5, 12, 4, 0)).unwrap();
    assert_eq!(7200, z.offset_seconds);
}

#[test]
fn impossible_date_does_not_resolve() {
    assert_eq!(None, resolve_berlin(civil(2020, 12, 32, 10, 0, 0)));
    assert_eq!(None, resolve_berlin(civil(2021, 2, 29, 10, 0, 0)));
}

#[test]
fn spring_forward_gap_does_not_resolve() {
    // 2020-03-29 02:30 never occurred in Berlin: clocks jumped 02:00 -> 03:00
    assert_eq!(None, resolve_berlin(civil(2020, 3, 29, 2, 30, 0)));
    assert!(resolve_berlin(civil(2020, 3, 29, 3, 30, 0)).is_some());
}

#[test]
fn stored_timestamps_read_back_to_the_same_instant() {
    let z = ZonedDateTime { civil: civil(2020, 12, 5, 9, 0, 0), offset_seconds: 3600 };
    assert_eq!(Some(z), parse_rfc3339(b"2020-12-05T09:00:00+01:00"));
    let neg = ZonedDateTime { civil: civil(1999, 1, 2, 3, 4, 5), offset_seconds: -18000 };
    assert_eq!(Some(neg), parse_rfc3339(b"1999-01-02T03:04:05-05:00"));
    assert_eq!(None, parse_rfc3339(b"2020-12-05 09:00:00+01:00"));
    assert_eq!(None, parse_rfc3339(b"2020-13-05T09:00:00+01:00"));
}
