//! Manually curated supplementary occurrences: their source shape, and the
//! conversion into ordinary event records. Every converted record carries a
//! fixed description marking it as unofficial.

use vstd::prelude::*;
use crate::datetime::{resolve_berlin, spec_resolve_berlin, CivilDateTime};
use crate::event_entry::{all_wf, copy_bytes, views, EventEntry, EventRec};
use crate::ics_to_json::ParseError;
use crate::text::{all_digits, byte_is_digit, digits_val, is_digit, lemma_digits_val_bound,
    parse_digits};

verus! {

/// One curated occurrence as its source supplies it: a date split into
/// plain fields and the times of day as `HH:MM` text.
pub struct AdditionalEvent {
    pub name: Vec<u8>,
    pub room: Vec<u8>,
    pub date: u8,
    pub month: u8,
    pub year: u16,
    pub starttime: Vec<u8>,
    pub endtime: Vec<u8>,
}

/// The mathematical value of a curated occurrence.
pub struct AdditionalRec {
    pub name: Seq<u8>,
    pub room: Seq<u8>,
    pub date: u8,
    pub month: u8,
    pub year: u16,
    pub starttime: Seq<u8>,
    pub endtime: Seq<u8>,
}

impl View for AdditionalEvent {
    type V = AdditionalRec;

    open spec fn view(&self) -> AdditionalRec {
        AdditionalRec {
            name: self.name@,
            room: self.room@,
            date: self.date,
            month: self.month,
            year: self.year,
            starttime: self.starttime@,
            endtime: self.endtime@,
        }
    }
}

/// The fixed description each curated occurrence gets, so downstream
/// consumers can recognize unofficial entries.
pub open spec fn additional_description() -> Seq<u8> {
    seq![
        68u8, 105u8, 101u8, 115u8, 32u8, 105u8, 115u8, 116u8, 32u8, 101u8, 105u8, 110u8, 101u8,
        32u8, 122u8, 117u8, 115u8, 195u8, 164u8, 116u8, 122u8, 108u8, 105u8, 99u8, 104u8, 101u8,
        44u8, 32u8, 105u8, 110u8, 111u8, 102u8, 102u8, 105u8, 122u8, 105u8, 101u8, 108u8, 108u8,
        101u8, 32u8, 86u8, 101u8, 114u8, 97u8, 110u8, 115u8, 116u8, 97u8, 108u8, 116u8, 117u8,
        110u8, 103u8, 58u8, 32u8, 104u8, 116u8, 116u8, 112u8, 115u8, 58u8, 47u8, 47u8, 103u8,
        105u8, 116u8, 104u8, 117u8, 98u8, 46u8, 99u8, 111u8, 109u8, 47u8, 72u8, 65u8, 87u8, 72u8,
        72u8, 67u8, 97u8, 108u8, 101u8, 110u8, 100u8, 97u8, 114u8, 66u8, 111u8, 116u8, 47u8,
        65u8, 100u8, 100u8, 105u8, 116u8, 105u8, 111u8, 110u8, 97u8, 108u8, 69u8, 118u8, 101u8,
        110u8, 116u8, 115u8,
    ]
}

/// Builds the fixed unofficial-entry description.
pub fn description_marker() -> (r: Vec<u8>)
    ensures
        r@ == additional_description(),
{
    let mut r: Vec<u8> = Vec::new();
    r.extend_from_slice(
        &[
            68, 105, 101, 115, 32, 105, 115, 116, 32, 101, 105, 110, 101, 32, 122, 117, 115, 195,
            164, 116, 122, 108, 105, 99, 104, 101, 44, 32, 105, 110, 111, 102, 102, 105, 122, 105,
            101, 108, 108, 101, 32, 86, 101, 114, 97, 110, 115, 116, 97, 108, 116, 117, 110, 103,
            58, 32, 104, 116, 116, 112, 115, 58, 47, 47, 103, 105, 116, 104, 117, 98, 46, 99, 111,
            109, 47, 72, 65, 87, 72, 72, 67, 97, 108, 101, 110, 100, 97, 114, 66, 111, 116, 47,
            65, 100, 100, 105, 116, 105, 111, 110, 97, 108, 69, 118, 101, 110, 116, 115,
        ],
    );
    proof {
        assert(r@ =~= additional_description());
    }
    r
}

/// Where the colon of a curated time stands: after one hour digit where
/// the second byte is the colon, after two otherwise. The hour and the
/// minute may each be written with one or two digits, and nothing else may
/// follow, which is how the source format reads `H:M` times.
pub open spec fn hm_colon(t: Seq<u8>) -> int {
    if t.len() >= 2 && t[1] == 58 {
        1
    } else {
        2
    }
}

/// The shape of a curated time of day: one or two hour digits, a colon,
/// and one or two minute digits.
pub open spec fn hm_shape(t: Seq<u8>) -> bool {
    let p = hm_colon(t);
    &&& p < t.len()
    &&& t[p] == 58
    &&& all_digits(t.subrange(0, p))
    &&& 1 <= t.len() - p - 1 <= 2
    &&& all_digits(t.subrange(p + 1, t.len() as int))
}

/// What reading a curated date and time yields: the civil time at second
/// zero, provided the time text is well-shaped and the whole denotes a
/// real calendar date and time.
pub open spec fn spec_parse_datetime(year: u16, month: u8, day: u8, time: Seq<u8>) -> Option<
    CivilDateTime,
> {
    if hm_shape(time) {
        let p = hm_colon(time);
        let c = CivilDateTime {
            year,
            month,
            day,
            hour: (digits_val(time.subrange(0, p))) as u8,
            minute: (digits_val(time.subrange(p + 1, time.len() as int))) as u8,
            second: 0,
        };
        if c.valid() {
            Some(c)
        } else {
            None
        }
    } else {
        None
    }
}

/// Reads a curated date plus an `HH:MM` time (each part of one or two
/// digits) as a civil time. Impossible calendar dates are rejected, not
/// clamped.
pub fn parse_datetime(year: u16, month: u8, day: u8, time: &[u8]) -> (r: Option<CivilDateTime>)
    ensures
        r == spec_parse_datetime(year, month, day, time@),
{
    if time.len() < 3 {
        return None;
    }
    let p: usize = if time[1] == 58 {
        1
    } else {
        2
    };
    if p >= time.len() || time[p] != 58 {
        return None;
    }
    let mlen: usize = time.len() - p - 1;
    if mlen < 1 || mlen > 2 {
        return None;
    }
    let mut i: usize = 0;
    while i < time.len()
        invariant
            i <= time@.len(),
            p < time@.len(),
            p == hm_colon(time@),
            forall|j: int| 0 <= j < i && j != p ==> is_digit(#[trigger] time@[j]),
        decreases time@.len() - i,
    {
        if i != p && !byte_is_digit(time[i]) {
            proof {
                assert(i < p ==> time@.subrange(0, p as int)[i as int] == time@[i as int]);
                assert(i > p ==> time@.subrange(p as int + 1, time@.len() as int)[i - p - 1]
                    == time@[i as int]);
            }
            return None;
        }
        i = i + 1;
    }
    proof {
        assert(all_digits(time@.subrange(0, p as int))) by {
            assert(forall|j: int|
                0 <= j < p ==> (#[trigger] time@.subrange(0, p as int)[j]) == time@[j]);
        }
        assert(all_digits(time@.subrange(p as int + 1, time@.len() as int))) by {
            assert(forall|j: int|
                0 <= j < time@.len() - p - 1 ==> (#[trigger] time@.subrange(
                    p as int + 1,
                    time@.len() as int,
                )[j]) == time@[j + p + 1]);
        }
        lemma_digits_val_bound(time@.subrange(0, p as int));
        lemma_digits_val_bound(time@.subrange(p as int + 1, time@.len() as int));
    }
    let c = CivilDateTime {
        year,
        month,
        day,
        hour: parse_digits(time, 0, p) as u8,
        minute: parse_digits(time, p + 1, mlen) as u8,
        second: 0,
    };
    if c.check_valid() {
        Some(c)
    } else {
        None
    }
}

/// What converting one curated occurrence yields: an event in the same
/// room, under the fixed unofficial-entry description, with both times
/// resolved in the Berlin zone; or nothing if a time cannot be read or
/// resolved.
pub open spec fn spec_into_event_entry(a: AdditionalRec) -> Option<EventRec> {
    let start = match spec_parse_datetime(a.year, a.month, a.date, a.starttime) {
        Some(c) => spec_resolve_berlin(c),
        None => None,
    };
    let end = match spec_parse_datetime(a.year, a.month, a.date, a.endtime) {
        Some(c) => spec_resolve_berlin(c),
        None => None,
    };
    match (start, end) {
        (Some(s), Some(e)) => Some(
            EventRec {
                name: a.name,
                location: a.room,
                description: additional_description(),
                start: s,
                end: e,
            },
        ),
        _ => None,
    }
}

impl AdditionalEvent {
    /// Converts this curated occurrence into an event record.
    pub fn into_event_entry(&self) -> (r: Result<EventEntry, ParseError>)
        ensures
            match r {
                Ok(e) => spec_into_event_entry(self@) == Some(e@) && e.wf(),
                Err(_) => spec_into_event_entry(self@) is None,
            },
    {
        let start = match parse_datetime(self.year, self.month, self.date, self.starttime.as_slice(
        )) {
            Some(c) => match resolve_berlin(c) {
                Some(z) => z,
                None => {
                    return Err(ParseError::DateFieldFailure);
                },
            },
            None => {
                return Err(ParseError::DateFieldFailure);
            },
        };
        let end = match parse_datetime(self.year, self.month, self.date, self.endtime.as_slice()) {
            Some(c) => match resolve_berlin(c) {
                Some(z) => z,
                None => {
                    return Err(ParseError::DateFieldFailure);
                },
            },
            None => {
                return Err(ParseError::DateFieldFailure);
            },
        };
        Ok(
            EventEntry {
                name: copy_bytes(&self.name),
                location: copy_bytes(&self.room),
                description: description_marker(),
                start,
                end,
            },
        )
    }
}

/// The records of a curated list, or nothing if any entry fails: one bad
/// entry fails its whole file, as reading the source does.
pub open spec fn spec_additional_events(s: Seq<AdditionalRec>) -> Option<Seq<EventRec>>
    decreases s.len(),
{
    if s.len() == 0 {
        Some(Seq::empty())
    } else {
        match (spec_additional_events(s.drop_last()), spec_into_event_entry(s.last())) {
            (Some(es), Some(e)) => Some(es.push(e)),
            _ => None,
        }
    }
}

/// Converts a curated list into event records, all or nothing.
pub fn additional_events(list: &Vec<AdditionalEvent>) -> (r: Result<Vec<EventEntry>, ParseError>)
    ensures
        match r {
            Ok(v) => spec_additional_events(list@.map_values(|a: AdditionalEvent| a@)) == Some(
                views(v@),
            ) && all_wf(views(v@)),
            Err(_) => spec_additional_events(list@.map_values(|a: AdditionalEvent| a@)) is None,
        },
{
    let ghost av = list@.map_values(|a: AdditionalEvent| a@);
    let mut out: Vec<EventEntry> = Vec::new();
    proof {
        assert(av.subrange(0, 0) =~= Seq::<AdditionalRec>::empty());
    }
    let mut i: usize = 0;
    while i < list.len()
        invariant
            i <= list@.len(),
            av == list@.map_values(|a: AdditionalEvent| a@),
            spec_additional_events(av.subrange(0, i as int)) == Some(views(out@)),
            all_wf(views(out@)),
        decreases list@.len() - i,
    {
        let ghost pre = av.subrange(0, i as int);
        let ghost pre1 = av.subrange(0, i as int + 1);
        proof {
            assert(pre1.drop_last() =~= pre);
            assert(pre1.last() == list@[i as int]@);
        }
        match list[i].into_event_entry() {
            Ok(e) => {
                let ghost old_res = views(out@);
                out.push(e);
                proof {
                    assert(views(out@) =~= old_res.push(e@));
                    assert(all_wf(views(out@))) by {
                        assert(forall|k: int|
                            0 <= k < old_res.len() ==> (#[trigger] views(out@)[k]) == old_res[k]);
                    }
                }
            },
            Err(err) => {
                proof {
                    lemma_additional_events_prefix_none(av, i as int + 1);
                }
                return Err(err);
            },
        }
        i = i + 1;
    }
    proof {
        assert(av.subrange(0, i as int) =~= av);
    }
    Ok(out)
}

/// A failing prefix fails the whole list.
proof fn lemma_additional_events_prefix_none(s: Seq<AdditionalRec>, n: int)
    requires
        0 <= n <= s.len(),
        spec_additional_events(s.subrange(0, n)) is None,
    ensures
        spec_additional_events(s) is None,
    decreases s.len() - n,
{
    if n < s.len() {
        let p = s.subrange(0, n);
        let p1 = s.subrange(0, n + 1);
        assert(p1.drop_last() =~= p);
        lemma_additional_events_prefix_none(s, n + 1);
    } else {
        assert(s.subrange(0, n) =~= s);
    }
}

} // verus!
