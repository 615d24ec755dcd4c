use eventfiles::additionals::{additional_events, description_marker, parse_datetime,
    AdditionalEvent};
use eventfiles::datetime::CivilDateTime;

fn civil(year: u16, month: u8, day: u8, hour: u8, minute: u8, second: u8) -> CivilDateTime {
    CivilDateTime { year, month, day, hour, minute, second }
}

#[test]
fn can_parse_datetime() {
    assert_eq!(Some(civil(2020, 12, 4, 22, 4, 0)), parse_datetime(2020, 12, 4, b"22:04"));
}

#[test]
fn accepts_one_and_two_digit_time_parts() {
    assert_eq!(Some(civil(2020, 12, 4, 9, 4, 0)), parse_datetime(2020, 12, 4, b"9:04"));
    assert_eq!(Some(civil(2020, 12, 4, 22, 4, 0)), parse_datetime(2020, 12, 4, b"22:4"));
    assert_eq!(Some(civil(2020, 12, 4, 9, 4, 0)), parse_datetime(2020, 12, 4, b"9:4"));
}

#[test]
fn rejects_bad_time_text_and_bad_dates() {
    assert_eq!(None, parse_datetime(2020, 12, 4, b"104"));
    assert_eq!(None, parse_datetime(2020, 12, 4, b"1:234"));
    assert_eq!(None, parse_datetime(2020, 12, 4, b"::"));
    assert_eq!(None, parse_datetime(2020, 12, 4, b"25:00"));
    assert_eq!(None, parse_datetime(2020, 2, 30, b"10:00"));
}

#[test]
fn curated_events_carry_the_unofficial_marker() {
    let list = vec![AdditionalEvent {
        name: b"Klausurvorbereitung".to_vec(),
        room: b"R 101".to_vec(),
        date: 4,
        month: 12,
        year: 2020,
        starttime: b"22:04".to_vec(),
        endtime: b"23:00".to_vec(),
    }];
    let events = additional_events(&list).unwrap();
    assert_eq!(1, events.len());
    assert_eq!(b"Klausurvorbereitung".to_vec(), events[0].name);
    assert_eq!(b"R 101".to_vec(), events[0].location);
    assert_eq!(description_marker(), events[0].description);
    assert_eq!(civil(2020, 12, 4, 22, 4, 0), events[0].start.civil);
    assert_eq!(3600, events[0].start.offset_seconds);
}

#[test]
fn one_bad_curated_entry_fails_the_list() {
    let list = vec![AdditionalEvent {
        name: b"x".to_vec(),
        room: b"y".to_vec(),
        date: 32,
        month: 1,
        year: 2020,
        starttime: b"10:00".to_vec(),
        endtime: b"11:00".to_vec(),
    }];
    assert!(additional_events(&list).is_err());
}
