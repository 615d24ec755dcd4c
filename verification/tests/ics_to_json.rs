use eventfiles::datetime::{CivilDateTime, ZonedDateTime};
use eventfiles::ics_to_json::{parse, parse_datetime, parse_description, parse_location,
    ParseError};

fn civil(year: u16, month: u8, day: u8, hour: u8, minute: u8, second: u8) -> CivilDateTime {
    CivilDateTime { year, month, day, hour, minute, second }
}

#[test]
fn can_parse_ics_datetime() {
    assert_eq!(Some(civil(2020, 12, 5, 22, 4, 0)), parse_datetime(b"20201205T220400"));
    assert_eq!(Some(civil(2020, 7, 5, 12, 4, 0)), parse_datetime(b"20200705T120400"));
}

#[test]
fn empty_dozent_ends_up_as_empty_description() {
    assert_eq!(b"".to_vec(), parse_description(b""));
}

#[test]
fn some_dozent_ends_up_as_description() {
    assert_eq!(b"Dozent: HTM".to_vec(), parse_description(b"HTM"));
}

#[test]
fn location_gets_stand_removed() {
    assert_eq!(b"Stiftstr69 R304a".to_vec(), parse_location(b"Stiftstr69 R304a  Stand 12-03-2020"));
}

#[test]
fn location_being_only_stand_ends_up_empty() {
    assert_eq!(b"".to_vec(), parse_location(b"Stand 12-03-2020"));
}

#[test]
fn no_break_space_padding_is_trimmed() {
    // U+00A0 around the room, as a latin1-decoded feed can carry it
    let raw = [0xC2u8, 0xA0, 0x20, b'R', b'a', b'u', b'm', b' ', b'5', 0x20, 0xC2, 0xA0];
    assert_eq!(b"Raum 5".to_vec(), parse_location(&raw));
}

#[test]
fn impossible_day_is_rejected_not_clamped() {
    assert_eq!(None, parse_datetime(b"20201232T120000"));
    assert_eq!(None, parse_datetime(b"20200230T120000"));
    // the leap day exists in 2020 but not in 2021
    assert_eq!(Some(civil(2020, 2, 29, 0, 0, 0)), parse_datetime(b"20200229T000000"));
    assert_eq!(None, parse_datetime(b"20210229T000000"));
}

const BLOCK: &[u8] = b"BEGIN:VEVENT\nSUMMARY:Algebra \nLOCATION: Raum 5  Stand 01-01-2020\nDESCRIPTION: \nUID:abc123\nDTSTART;TZID=Europe/Berlin:20201205T090000\nDTEND;TZID=Europe/Berlin:20201205T103000\nEND:VEVENT\n";

#[test]
fn one_block_becomes_one_event() {
    let events = parse(BLOCK).unwrap();
    assert_eq!(1, events.len());
    let ev = &events[0];
    assert_eq!(b"Algebra".to_vec(), ev.name);
    assert_eq!(b"Raum 5".to_vec(), ev.location);
    assert_eq!(b"".to_vec(), ev.description);
    assert_eq!(ZonedDateTime { civil: civil(2020, 12, 5, 9, 0, 0), offset_seconds: 3600 }, ev.start);
    assert_eq!(ZonedDateTime { civil: civil(2020, 12, 5, 10, 30, 0), offset_seconds: 3600 }, ev.end);
}

#[test]
fn crlf_line_endings_are_normalized() {
    let body = String::from_utf8(BLOCK.to_vec()).unwrap().replace('\n', "\r\n");
    let events = parse(body.as_bytes()).unwrap();
    assert_eq!(1, events.len());
    assert_eq!(b"Algebra".to_vec(), events[0].name);
}

#[test]
fn block_without_description_line_still_matches() {
    let body = b"BEGIN:VEVENT\nSUMMARY:Analysis\nLOCATION:R 007\nUID:u1\nDTSTART;TZID=Europe/Berlin:20200705T120400\nDTEND;TZID=Europe/Berlin:20200705T130400\nEND:VEVENT\n";
    let events = parse(body).unwrap();
    assert_eq!(1, events.len());
    assert_eq!(b"Analysis".to_vec(), events[0].name);
    assert_eq!(b"".to_vec(), events[0].description);
    assert_eq!(7200, events[0].start.offset_seconds);
}

#[test]
fn annotation_surfaces_as_dozent_description() {
    let body = b"BEGIN:VEVENT\nSUMMARY:Algebra\nLOCATION:Raum 5\nDESCRIPTION: HTM \nUID:u\nDTSTART;TZID=Europe/Berlin:20201205T090000\nDTEND;TZID=Europe/Berlin:20201205T103000\nEND:VEVENT\n";
    let events = parse(body).unwrap();
    assert_eq!(b"Dozent: HTM".to_vec(), events[0].description);
}

#[test]
fn malformed_blocks_are_skipped_silently() {
    let mut body = Vec::new();
    body.extend_from_slice(b"BEGIN:VEVENT\nSUMMARY:\nLOCATION:nope\nEND:VEVENT\njunk line\n");
    body.extend_from_slice(BLOCK);
    body.extend_from_slice(b"BEGIN:VEVENT\nSUMMARY:half a block\n");
    let events = parse(&body).unwrap();
    assert_eq!(1, events.len());
    assert_eq!(b"Algebra".to_vec(), events[0].name);
}

#[test]
fn bad_date_fails_the_whole_blob() {
    let mut body = Vec::new();
    body.extend_from_slice(BLOCK);
    body.extend_from_slice(b"BEGIN:VEVENT\nSUMMARY:Broken\nLOCATION:R1\nUID:u\nDTSTART;TZID=Europe/Berlin:20201232T090000\nDTEND;TZID=Europe/Berlin:20201232T103000\nEND:VEVENT\n");
    assert_eq!(Err(ParseError::DateFieldFailure), parse(&body).map(|v| v.len()));
}

#[test]
fn empty_blob_yields_no_events() {
    assert_eq!(0, parse(b"").unwrap().len());
    assert_eq!(0, parse(b"no calendar data here\nat all\n").unwrap().len());
}
