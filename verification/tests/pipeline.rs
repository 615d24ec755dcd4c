use eventfiles::datetime::{CivilDateTime, ZonedDateTime};
use eventfiles::event_entry::{event_eq, EventEntry};
use eventfiles::grouping::{get_grouped, sanitize_name};
use eventfiles::ics_to_json::parse;
use eventfiles::json::{render_feed, render_index, render_series};
use eventfiles::snapshot::{build_snapshot, plan_persist, SeriesFile};

fn zoned(day: u8, hour: u8, minute: u8) -> ZonedDateTime {
    ZonedDateTime {
        civil: CivilDateTime { year: 2020, month: 12, day, hour, minute, second: 0 },
        offset_seconds: 3600,
    }
}

fn event(name: &[u8], location: &[u8], day: u8, hour: u8) -> EventEntry {
    EventEntry {
        name: name.to_vec(),
        location: location.to_vec(),
        description: Vec::new(),
        start: zoned(day, hour, 0),
        end: zoned(day, hour + 1, 30),
    }
}

#[test]
fn names_with_slashes_become_dashed_stems() {
    assert_eq!(b"BWL-2".to_vec(), sanitize_name(b"BWL/2"));
    assert_eq!(b"plain".to_vec(), sanitize_name(b"plain"));
}

#[test]
fn identical_events_from_different_blobs_collapse() {
    let block = b"BEGIN:VEVENT\nSUMMARY:Algebra\nLOCATION:Raum 5\nDESCRIPTION:\nUID:u1\nDTSTART;TZID=Europe/Berlin:20201205T090000\nDTEND;TZID=Europe/Berlin:20201205T103000\nEND:VEVENT\n";
    let mut all = parse(block).unwrap();
    all.append(&mut parse(block).unwrap());
    assert_eq!(2, all.len());
    let groups = get_grouped(&all);
    assert_eq!(1, groups.len());
    assert_eq!(b"Algebra".to_vec(), groups[0].key);
    assert_eq!(1, groups[0].events.len());
}

#[test]
fn events_differing_in_one_field_are_both_kept() {
    let all = vec![event(b"Algebra", b"Raum 5", 5, 9), event(b"Algebra", b"Raum 7", 5, 9)];
    let groups = get_grouped(&all);
    assert_eq!(1, groups.len());
    assert_eq!(2, groups[0].events.len());
}

#[test]
fn groups_are_sorted_by_start_with_documented_tiebreaks() {
    let all = vec![
        event(b"Algebra", b"B", 7, 9),
        event(b"Algebra", b"A", 5, 11),
        event(b"Algebra", b"B", 5, 9),
        event(b"Algebra", b"A", 5, 9),
    ];
    let groups = get_grouped(&all);
    let evs = &groups[0].events;
    assert_eq!(4, evs.len());
    assert!(event_eq(&evs[0], &event(b"Algebra", b"A", 5, 9)));
    assert!(event_eq(&evs[1], &event(b"Algebra", b"B", 5, 9)));
    assert!(event_eq(&evs[2], &event(b"Algebra", b"A", 5, 11)));
    assert!(event_eq(&evs[3], &event(b"Algebra", b"B", 7, 9)));
}

#[test]
fn blob_order_does_not_change_file_contents() {
    let mut one = vec![
        event(b"Algebra", b"R5", 5, 9),
        event(b"Analysis", b"R7", 6, 9),
        event(b"Algebra", b"R5", 7, 9),
    ];
    let mut two: Vec<EventEntry> = Vec::new();
    while let Some(e) = one.pop() {
        two.push(e);
    }
    let one = vec![
        event(b"Algebra", b"R5", 5, 9),
        event(b"Analysis", b"R7", 6, 9),
        event(b"Algebra", b"R5", 7, 9),
    ];
    let snap_a = build_snapshot(&get_grouped(&one));
    let snap_b = build_snapshot(&get_grouped(&two));
    assert_eq!(snap_a.files.len(), snap_b.files.len());
    for (fa, fb) in snap_a.files.iter().zip(snap_b.files.iter()) {
        assert_eq!(fa.stem, fb.stem);
        assert_eq!(fa.content, fb.content);
    }
    assert_eq!(snap_a.index, snap_b.index);
}

#[test]
fn serialized_series_is_byte_exact() {
    let all = vec![event(b"Algebra", b"Raum 5", 5, 9)];
    let content = render_series(&get_grouped(&all)[0].events);
    let expected = "[\n  {\n    \"Name\": \"Algebra\",\n    \"Location\": \"Raum 5\",\n    \"Description\": \"\",\n    \"StartTime\": \"2020-12-05T09:00:00+01:00\",\n    \"EndTime\": \"2020-12-05T10:30:00+01:00\"\n  }\n]\n";
    assert_eq!(expected.as_bytes().to_vec(), content);
}

#[test]
fn special_characters_are_escaped_like_json() {
    let mut e = event(b"A \"quoted\" name", b"back\\slash", 5, 9);
    e.description = vec![7u8, 31u8];
    let content = render_series(&vec![e]);
    let text = String::from_utf8(content).unwrap();
    assert!(text.contains("\"Name\": \"A \\\"quoted\\\" name\""));
    assert!(text.contains("\"Location\": \"back\\\\slash\""));
    assert!(text.contains("\"Description\": \"\\u0007\\u001f\""));
}

#[test]
fn feed_file_is_byte_exact() {
    let all = vec![event(b"Algebra", b"Raum 5", 5, 9)];
    let content = render_feed(&all);
    let expected = "[\n\t{\n\t\t\"name\": \"Algebra\",\n\t\t\"location\": \"Raum 5\",\n\t\t\"description\": \"\",\n\t\t\"start\": \"2020-12-05T09:00:00+01:00\",\n\t\t\"end\": \"2020-12-05T10:30:00+01:00\"\n\t}\n]\n";
    assert_eq!(expected.as_bytes().to_vec(), content);
    assert_eq!(b"[]\n".to_vec(), render_feed(&Vec::new()));
}

#[test]
fn index_lists_sorted_names_one_per_line() {
    let all = vec![event(b"Zahlentheorie", b"R1", 5, 9), event(b"Algebra", b"R2", 6, 9)];
    let snap = build_snapshot(&get_grouped(&all));
    assert_eq!(b"Algebra\nZahlentheorie\n".to_vec(), snap.index);
    assert_eq!(b"A\nB\n".to_vec(), render_index(&vec![b"A".to_vec(), b"B".to_vec()]));
}

#[test]
fn index_lists_sanitized_series_names() {
    let all = vec![event(b"BWL/2", b"R9", 7, 9)];
    let snap = build_snapshot(&get_grouped(&all));
    assert_eq!(b"BWL-2".to_vec(), snap.files[0].stem);
    assert_eq!(b"BWL-2\n".to_vec(), snap.index);
}

#[test]
fn second_run_with_identical_input_writes_nothing() {
    let all = vec![
        event(b"Algebra", b"R5", 5, 9),
        event(b"Analysis", b"R7", 6, 9),
        event(b"BWL/2", b"R9", 7, 9),
    ];
    let snap = build_snapshot(&get_grouped(&all));
    // first run: an empty directory gets every file
    let first = plan_persist(&snap, &Vec::new(), &None);
    assert_eq!(3, first.writes.len());
    assert_eq!(0, first.deletes.len());
    assert_eq!(Some(snap.index.clone()), first.index_write);
    // apply the plan, then plan again over byte-identical input
    let disk: Vec<SeriesFile> = first
        .writes
        .iter()
        .map(|f| SeriesFile { stem: f.stem.clone(), content: f.content.clone() })
        .collect();
    let again = build_snapshot(&get_grouped(&all));
    let second = plan_persist(&again, &disk, &Some(snap.index.clone()));
    assert_eq!(0, second.writes.len());
    assert_eq!(0, second.deletes.len());
    assert_eq!(None, second.index_write);
}

#[test]
fn vanished_series_gets_deleted_and_leaves_the_index() {
    let old_all = vec![event(b"Algebra", b"R5", 5, 9), event(b"Geometrie", b"R1", 6, 9)];
    let old_snap = build_snapshot(&get_grouped(&old_all));
    let disk: Vec<SeriesFile> = old_snap
        .files
        .iter()
        .map(|f| SeriesFile { stem: f.stem.clone(), content: f.content.clone() })
        .collect();
    assert!(String::from_utf8(old_snap.index.clone()).unwrap().contains("Geometrie"));

    let new_all = vec![event(b"Algebra", b"R5", 5, 9)];
    let snap = build_snapshot(&get_grouped(&new_all));
    let plan = plan_persist(&snap, &disk, &Some(old_snap.index.clone()));
    assert_eq!(vec![b"Geometrie".to_vec()], plan.deletes);
    assert_eq!(0, plan.writes.len());
    let new_index = String::from_utf8(plan.index_write.unwrap()).unwrap();
    assert!(!new_index.contains("Geometrie"));
    assert_eq!("Algebra\n", new_index);
}

#[test]
fn changed_content_is_rewritten() {
    let all = vec![event(b"Algebra", b"R5", 5, 9)];
    let snap = build_snapshot(&get_grouped(&all));
    let disk = vec![SeriesFile { stem: b"Algebra".to_vec(), content: b"stale".to_vec() }];
    let plan = plan_persist(&snap, &disk, &Some(snap.index.clone()));
    assert_eq!(1, plan.writes.len());
    assert_eq!(b"Algebra".to_vec(), plan.writes[0].stem);
    assert_eq!(0, plan.deletes.len());
    assert_eq!(None, plan.index_write);
}
