//! Civil (wall-clock) date-times, calendar validity, and resolution of a
//! civil time to an absolute instant in the Berlin timezone.

use vstd::prelude::*;
use chrono::{Offset, TimeZone};
use crate::text::{all_digits, byte_is_digit, digits_val, is_digit, lemma_digits_val_bound,
    parse_digits};

verus! {

/// A civil (wall-clock) date and time, with no timezone attached.
#[derive(Clone, Copy, PartialEq, Eq, Structural, Debug)]
pub struct CivilDateTime {
    pub year: u16,
    pub month: u8,
    pub day: u8,
    pub hour: u8,
    pub minute: u8,
    pub second: u8,
}

/// The proleptic Gregorian leap-year rule.
pub open spec fn spec_is_leap_year(year: int) -> bool {
    year % 4 == 0 && (year % 100 != 0 || year % 400 == 0)
}

pub open spec fn spec_days_in_month(year: int, month: int) -> int {
    if month == 2 {
        if spec_is_leap_year(year) {
            29
        } else {
            28
        }
    } else if month == 4 || month == 6 || month == 9 || month == 11 {
        30
    } else {
        31
    }
}

pub fn is_leap_year(year: u16) -> (r: bool)
    ensures
        r == spec_is_leap_year(year as int),
{
    year % 4 == 0 && (year % 100 != 0 || year % 400 == 0)
}

pub fn days_in_month(year: u16, month: u8) -> (r: u8)
    ensures
        r as int == spec_days_in_month(year as int, month as int),
{
    if month == 2 {
        if is_leap_year(year) {
            29
        } else {
            28
        }
    } else if month == 4 || month == 6 || month == 9 || month == 11 {
        30
    } else {
        31
    }
}

impl CivilDateTime {
    /// Calendar validity: a month from 1 to 12, a day that exists in that
    /// month (Gregorian leap rule), and a time below 24:00:00.
    pub open spec fn valid(self) -> bool {
        &&& 1 <= self.month <= 12
        &&& 1 <= self.day
        &&& self.day as int <= spec_days_in_month(self.year as int, self.month as int)
        &&& self.hour < 24
        &&& self.minute < 60
        &&& self.second < 60
    }

    pub fn check_valid(&self) -> (r: bool)
        ensures
            r == self.valid(),
    {
        1 <= self.month && self.month <= 12 && 1 <= self.day && self.day
            <= days_in_month(self.year, self.month) && self.hour < 24 && self.minute < 60
            && self.second < 60
    }
}

/// Whether `a` comes no later than `b` in civil order: lexicographic over
/// (year, month, day, hour, minute, second).
pub open spec fn spec_civil_le(a: CivilDateTime, b: CivilDateTime) -> bool {
    if a.year != b.year {
        a.year < b.year
    } else if a.month != b.month {
        a.month < b.month
    } else if a.day != b.day {
        a.day < b.day
    } else if a.hour != b.hour {
        a.hour < b.hour
    } else if a.minute != b.minute {
        a.minute < b.minute
    } else {
        a.second <= b.second
    }
}

pub fn civil_le(a: &CivilDateTime, b: &CivilDateTime) -> (r: bool)
    ensures
        r == spec_civil_le(*a, *b),
{
    if a.year != b.year {
        a.year < b.year
    } else if a.month != b.month {
        a.month < b.month
    } else if a.day != b.day {
        a.day < b.day
    } else if a.hour != b.hour {
        a.hour < b.hour
    } else if a.minute != b.minute {
        a.minute < b.minute
    } else {
        a.second <= b.second
    }
}

/// A civil date-time together with the UTC offset (seconds, east positive)
/// that resolves it to an absolute instant.
#[derive(Clone, Copy, PartialEq, Eq, Structural, Debug)]
pub struct ZonedDateTime {
    pub civil: CivilDateTime,
    pub offset_seconds: i32,
}

impl ZonedDateTime {
    /// A resolved instant: valid civil fields and a whole-minute offset of
    /// less than a day, so it can be printed as a `+HH:MM` suffix.
    pub open spec fn valid(self) -> bool {
        &&& self.civil.valid()
        &&& -86400 < self.offset_seconds < 86400
        &&& self.offset_seconds % 60 == 0
    }
}

/// Civil order with the offset as the final tiebreak.
pub open spec fn spec_zoned_le(a: ZonedDateTime, b: ZonedDateTime) -> bool {
    if a.civil != b.civil {
        spec_civil_le(a.civil, b.civil)
    } else {
        a.offset_seconds <= b.offset_seconds
    }
}

pub fn zoned_le(a: &ZonedDateTime, b: &ZonedDateTime) -> (r: bool)
    ensures
        r == spec_zoned_le(*a, *b),
{
    if a.civil != b.civil {
        civil_le(&a.civil, &b.civil)
    } else {
        a.offset_seconds <= b.offset_seconds
    }
}

/// The UTC offset, in seconds, with which the Berlin timezone resolves the
/// given civil time; `None` where the civil time does not exist or is
/// ambiguous there (daylight-saving transitions), or does not name a real
/// calendar date.
pub uninterp spec fn berlin_offset_of(
    year: u16,
    month: u8,
    day: u8,
    hour: u8,
    minute: u8,
    second: u8,
) -> Option<i32>;

/// Relies on chrono_tz's `Europe::Berlin` table via
/// `TimeZone::from_local_datetime`: the offset for a civil time is a function
/// of the civil fields alone (the zone's rules are compiled into the crate),
/// and only an unambiguous resolution is accepted. `NaiveDate::from_ymd_opt`
/// and `and_hms_opt` merely build the argument from the plain fields.
#[verifier::external_body]
fn berlin_offset_seconds(year: u16, month: u8, day: u8, hour: u8, minute: u8, second: u8) -> (r:
    Option<i32>)
    ensures
        r == berlin_offset_of(year, month, day, hour, minute, second),
{
    let date = chrono::NaiveDate::from_ymd_opt(i32::from(year), u32::from(month), u32::from(day))?;
    let naive = date.and_hms_opt(u32::from(hour), u32::from(minute), u32::from(second))?;
    match chrono_tz::Europe::Berlin.from_local_datetime(&naive) {
        chrono::LocalResult::Single(dt) => Some(dt.offset().fix().local_minus_utc()),
        _ => None,
    }
}

/// What resolution of a civil time in the Berlin zone yields: the same civil
/// fields plus the zone's offset, provided the date is a real calendar date,
/// the zone resolves it unambiguously, and the offset is a whole number of
/// minutes shorter than a day (so the result is printable).
pub open spec fn spec_resolve_berlin(civil: CivilDateTime) -> Option<ZonedDateTime> {
    if !civil.valid() {
        None
    } else {
        match berlin_offset_of(
            civil.year,
            civil.month,
            civil.day,
            civil.hour,
            civil.minute,
            civil.second,
        ) {
            Some(off) => if -86400 < off < 86400 && off % 60 == 0 {
                Some(ZonedDateTime { civil, offset_seconds: off })
            } else {
                None
            },
            None => None,
        }
    }
}

/// Resolves a civil time to an absolute instant in the Berlin timezone.
/// Rejects impossible calendar dates rather than clamping them, and rejects
/// civil times that the zone cannot resolve to a single offset.
pub fn resolve_berlin(civil: CivilDateTime) -> (r: Option<ZonedDateTime>)
    ensures
        r == spec_resolve_berlin(civil),
        r matches Some(z) ==> z.valid() && z.civil == civil,
{
    if !civil.check_valid() {
        return None;
    }
    match berlin_offset_seconds(
        civil.year,
        civil.month,
        civil.day,
        civil.hour,
        civil.minute,
        civil.second,
    ) {
        Some(off) => if -86400 < off && off < 86400 && off % 60 == 0 {
            Some(ZonedDateTime { civil, offset_seconds: off })
        } else {
            None
        },
        None => None,
    }
}

/// The shape of a stored timestamp: `YYYY-MM-DDTHH:MM:SS+HH:MM`, with `+`
/// or `-` before the offset.
pub open spec fn rfc3339_shape(s: Seq<u8>) -> bool {
    &&& s.len() == 25
    &&& all_digits(s.subrange(0, 4))
    &&& s[4] == 45
    &&& all_digits(s.subrange(5, 7))
    &&& s[7] == 45
    &&& all_digits(s.subrange(8, 10))
    &&& s[10] == 84
    &&& all_digits(s.subrange(11, 13))
    &&& s[13] == 58
    &&& all_digits(s.subrange(14, 16))
    &&& s[16] == 58
    &&& all_digits(s.subrange(17, 19))
    &&& (s[19] == 43 || s[19] == 45)
    &&& all_digits(s.subrange(20, 22))
    &&& s[22] == 58
    &&& all_digits(s.subrange(23, 25))
}

/// The civil fields of a well-shaped stored timestamp.
pub open spec fn rfc3339_civil_of(s: Seq<u8>) -> CivilDateTime {
    CivilDateTime {
        year: digits_val(s.subrange(0, 4)) as u16,
        month: digits_val(s.subrange(5, 7)) as u8,
        day: digits_val(s.subrange(8, 10)) as u8,
        hour: digits_val(s.subrange(11, 13)) as u8,
        minute: digits_val(s.subrange(14, 16)) as u8,
        second: digits_val(s.subrange(17, 19)) as u8,
    }
}

/// The offset, in seconds, of a well-shaped stored timestamp.
pub open spec fn rfc3339_offset_of(s: Seq<u8>) -> int {
    let mag = digits_val(s.subrange(20, 22)) * 3600 + digits_val(s.subrange(23, 25)) * 60;
    if s[19] == 45 {
        -mag
    } else {
        mag
    }
}

/// What reading a stored timestamp yields: its instant, provided the shape
/// fits and both the civil fields and the offset are in range.
pub open spec fn spec_parse_rfc3339(s: Seq<u8>) -> Option<ZonedDateTime> {
    if rfc3339_shape(s) && rfc3339_civil_of(s).valid() && -86400 < rfc3339_offset_of(s) < 86400 {
        Some(
            ZonedDateTime {
                civil: rfc3339_civil_of(s),
                offset_seconds: rfc3339_offset_of(s) as i32,
            },
        )
    } else {
        None
    }
}

/// Reads a stored `YYYY-MM-DDTHH:MM:SS+HH:MM` timestamp back.
pub fn parse_rfc3339(raw: &[u8]) -> (r: Option<ZonedDateTime>)
    ensures
        r == spec_parse_rfc3339(raw@),
{
    if raw.len() != 25 {
        return None;
    }
    if raw[4] != 45 || raw[7] != 45 || raw[10] != 84 || raw[13] != 58 || raw[16] != 58 || raw[22]
        != 58 {
        return None;
    }
    if raw[19] != 43 && raw[19] != 45 {
        return None;
    }
    let mut i: usize = 0;
    while i < 25
        invariant
            i <= 25,
            raw@.len() == 25,
            forall|j: int|
                0 <= j < i && j != 4 && j != 7 && j != 10 && j != 13 && j != 16 && j != 19 && j
                    != 22 ==> is_digit(#[trigger] raw@[j]),
        decreases 25 - i,
    {
        let sep = i == 4 || i == 7 || i == 10 || i == 13 || i == 16 || i == 19 || i == 22;
        if !sep && !byte_is_digit(raw[i]) {
            proof {
                let v = raw@;
                assert(i < 4 ==> v.subrange(0, 4)[i as int] == v[i as int]);
                assert(5 <= i < 7 ==> v.subrange(5, 7)[i as int - 5] == v[i as int]);
                assert(8 <= i < 10 ==> v.subrange(8, 10)[i as int - 8] == v[i as int]);
                assert(11 <= i < 13 ==> v.subrange(11, 13)[i as int - 11] == v[i as int]);
                assert(14 <= i < 16 ==> v.subrange(14, 16)[i as int - 14] == v[i as int]);
                assert(17 <= i < 19 ==> v.subrange(17, 19)[i as int - 17] == v[i as int]);
                assert(20 <= i < 22 ==> v.subrange(20, 22)[i as int - 20] == v[i as int]);
                assert(23 <= i < 25 ==> v.subrange(23, 25)[i as int - 23] == v[i as int]);
            }
            return None;
        }
        i = i + 1;
    }
    proof {
        let v = raw@;
        assert(all_digits(v.subrange(0, 4))) by {
            assert(forall|j: int| 0 <= j < 4 ==> (#[trigger] v.subrange(0, 4)[j]) == v[j]);
        }
        assert(all_digits(v.subrange(5, 7))) by {
            assert(forall|j: int| 0 <= j < 2 ==> (#[trigger] v.subrange(5, 7)[j]) == v[j + 5]);
        }
        assert(all_digits(v.subrange(8, 10))) by {
            assert(forall|j: int| 0 <= j < 2 ==> (#[trigger] v.subrange(8, 10)[j]) == v[j + 8]);
        }
        assert(all_digits(v.subrange(11, 13))) by {
            assert(forall|j: int| 0 <= j < 2 ==> (#[trigger] v.subrange(11, 13)[j]) == v[j + 11]);
        }
        assert(all_digits(v.subrange(14, 16))) by {
            assert(forall|j: int| 0 <= j < 2 ==> (#[trigger] v.subrange(14, 16)[j]) == v[j + 14]);
        }
        assert(all_digits(v.subrange(17, 19))) by {
            assert(forall|j: int| 0 <= j < 2 ==> (#[trigger] v.subrange(17, 19)[j]) == v[j + 17]);
        }
        assert(all_digits(v.subrange(20, 22))) by {
            assert(forall|j: int| 0 <= j < 2 ==> (#[trigger] v.subrange(20, 22)[j]) == v[j + 20]);
        }
        assert(all_digits(v.subrange(23, 25))) by {
            assert(forall|j: int| 0 <= j < 2 ==> (#[trigger] v.subrange(23, 25)[j]) == v[j + 23]);
        }
        lemma_digits_val_bound(v.subrange(0, 4));
        lemma_digits_val_bound(v.subrange(5, 7));
        lemma_digits_val_bound(v.subrange(8, 10));
        lemma_digits_val_bound(v.subrange(11, 13));
        lemma_digits_val_bound(v.subrange(14, 16));
        lemma_digits_val_bound(v.subrange(17, 19));
        lemma_digits_val_bound(v.subrange(20, 22));
        lemma_digits_val_bound(v.subrange(23, 25));
    }
    let civil = CivilDateTime {
        year: parse_digits(raw, 0, 4),
        month: parse_digits(raw, 5, 2) as u8,
        day: parse_digits(raw, 8, 2) as u8,
        hour: parse_digits(raw, 11, 2) as u8,
        minute: parse_digits(raw, 14, 2) as u8,
        second: parse_digits(raw, 17, 2) as u8,
    };
    let mag: u32 = parse_digits(raw, 20, 2) as u32 * 3600 + parse_digits(raw, 23, 2) as u32 * 60;
    if !civil.check_valid() || mag >= 86400 {
        return None;
    }
    let off: i32 = if raw[19] == 45 {
        -(mag as i32)
    } else {
        mag as i32
    };
    Some(ZonedDateTime { civil, offset_seconds: off })
}

} // verus!
