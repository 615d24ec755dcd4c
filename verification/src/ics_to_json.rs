//! Extraction of occurrence blocks from a calendar text feed: the fixed
//! block grammar, the field sanitizers, and the timestamp format.

use vstd::prelude::*;
use crate::datetime::{resolve_berlin, spec_resolve_berlin, CivilDateTime, ZonedDateTime};
use crate::event_entry::{all_wf, views, EventEntry, EventRec};
use crate::text::{all_digits, byte_is_digit, digits_val, has_prefix, has_suffix, is_digit,
    is_prefix, is_suffix, lemma_digits_val_bound, parse_digits, spec_trim, trim};

verus! {

/// Why a blob fails as a whole: a matched block carried a timestamp that
/// could not be read or resolved.
#[derive(Clone, Copy, Debug, PartialEq, Eq, Structural)]
pub enum ParseError {
    DateFieldFailure,
}

/// The shape of a timestamp field: an 8-digit date and a 6-digit time
/// joined by a literal `T`.
pub open spec fn ics_datetime_shape(s: Seq<u8>) -> bool {
    &&& s.len() == 15
    &&& all_digits(s.subrange(0, 8))
    &&& s[8] == 84
    &&& all_digits(s.subrange(9, 15))
}

/// The civil fields denoted by a well-shaped timestamp field.
pub open spec fn ics_civil_of(s: Seq<u8>) -> CivilDateTime {
    CivilDateTime {
        year: digits_val(s.subrange(0, 4)) as u16,
        month: digits_val(s.subrange(4, 6)) as u8,
        day: digits_val(s.subrange(6, 8)) as u8,
        hour: digits_val(s.subrange(9, 11)) as u8,
        minute: digits_val(s.subrange(11, 13)) as u8,
        second: digits_val(s.subrange(13, 15)) as u8,
    }
}

/// What reading a timestamp field yields: the denoted civil time, provided
/// the field is well-shaped and denotes a real calendar date and time.
pub open spec fn spec_parse_datetime(s: Seq<u8>) -> Option<CivilDateTime> {
    if ics_datetime_shape(s) && ics_civil_of(s).valid() {
        Some(ics_civil_of(s))
    } else {
        None
    }
}

/// Reads a `YYYYMMDDTHHMMSS` timestamp field as a civil time. Impossible
/// calendar dates are rejected, not clamped.
pub fn parse_datetime(raw: &[u8]) -> (r: Option<CivilDateTime>)
    ensures
        r == spec_parse_datetime(raw@),
{
    if raw.len() != 15 {
        return None;
    }
    if raw[8] != 84 {
        return None;
    }
    let mut i: usize = 0;
    while i < 15
        invariant
            i <= 15,
            raw@.len() == 15,
            forall|j: int| 0 <= j < i && j != 8 ==> is_digit(#[trigger] raw@[j]),
        decreases 15 - i,
    {
        if i != 8 && !byte_is_digit(raw[i]) {
            proof {
                if raw@[i as int] == 84 {
                }
                assert(i < 8 ==> raw@.subrange(0, 8)[i as int] == raw@[i as int]);
                assert(i > 8 ==> raw@.subrange(9, 15)[i as int - 9] == raw@[i as int]);
            }
            return None;
        }
        i = i + 1;
    }
    proof {
        assert forall|j: int| 0 <= j < 8 implies is_digit(#[trigger] raw@.subrange(0, 8)[j]) by {
            assert(raw@.subrange(0, 8)[j] == raw@[j]);
        }
        assert forall|j: int| 0 <= j < 6 implies is_digit(#[trigger] raw@.subrange(9, 15)[j]) by {
            assert(raw@.subrange(9, 15)[j] == raw@[j + 9]);
        }
        assert(all_digits(raw@.subrange(0, 4))) by {
            assert(forall|j: int|
                0 <= j < 4 ==> (#[trigger] raw@.subrange(0, 4)[j]) == raw@.subrange(0, 8)[j]);
        }
        assert(all_digits(raw@.subrange(4, 6))) by {
            assert(forall|j: int|
                0 <= j < 2 ==> (#[trigger] raw@.subrange(4, 6)[j]) == raw@.subrange(0, 8)[j + 4]);
        }
        assert(all_digits(raw@.subrange(6, 8))) by {
            assert(forall|j: int|
                0 <= j < 2 ==> (#[trigger] raw@.subrange(6, 8)[j]) == raw@.subrange(0, 8)[j + 6]);
        }
        assert(all_digits(raw@.subrange(9, 11))) by {
            assert(forall|j: int|
                0 <= j < 2 ==> (#[trigger] raw@.subrange(9, 11)[j]) == raw@.subrange(9, 15)[j]);
        }
        assert(all_digits(raw@.subrange(11, 13))) by {
            assert(forall|j: int|
                0 <= j < 2 ==> (#[trigger] raw@.subrange(11, 13)[j]) == raw@.subrange(9, 15)[j
                    + 2]);
        }
        assert(all_digits(raw@.subrange(13, 15))) by {
            assert(forall|j: int|
                0 <= j < 2 ==> (#[trigger] raw@.subrange(13, 15)[j]) == raw@.subrange(9, 15)[j
                    + 4]);
        }
        lemma_digits_val_bound(raw@.subrange(0, 4));
        lemma_digits_val_bound(raw@.subrange(4, 6));
        lemma_digits_val_bound(raw@.subrange(6, 8));
        lemma_digits_val_bound(raw@.subrange(9, 11));
        lemma_digits_val_bound(raw@.subrange(11, 13));
        lemma_digits_val_bound(raw@.subrange(13, 15));
    }
    let civil = CivilDateTime {
        year: parse_digits(raw, 0, 4),
        month: parse_digits(raw, 4, 2) as u8,
        day: parse_digits(raw, 6, 2) as u8,
        hour: parse_digits(raw, 9, 2) as u8,
        minute: parse_digits(raw, 11, 2) as u8,
        second: parse_digits(raw, 13, 2) as u8,
    };
    if civil.check_valid() {
        Some(civil)
    } else {
        None
    }
}

/// The annotation template: `Dozent: ` before a non-empty annotation.
pub open spec fn dozent_prefix() -> Seq<u8> {
    seq![68u8, 111u8, 122u8, 101u8, 110u8, 116u8, 58u8, 32u8]
}

/// What the description field holds: empty for an empty annotation, and the
/// fixed template around the annotation otherwise.
pub open spec fn spec_description(dozent: Seq<u8>) -> Seq<u8> {
    if dozent.len() == 0 {
        Seq::empty()
    } else {
        dozent_prefix() + dozent
    }
}

/// Builds the description from the (already trimmed) annotation value.
pub fn parse_description(dozent: &[u8]) -> (r: Vec<u8>)
    ensures
        r@ == spec_description(dozent@),
{
    let mut r: Vec<u8> = Vec::new();
    if dozent.len() == 0 {
        proof {
            assert(r@ =~= spec_description(dozent@));
        }
        return r;
    }
    r.push(68);
    r.push(111);
    r.push(122);
    r.push(101);
    r.push(110);
    r.push(116);
    r.push(58);
    r.push(32);
    r.extend_from_slice(dozent);
    proof {
        assert(r@ =~= dozent_prefix() + dozent@);
    }
    r
}

/// The revision stamp that feeds append to room strings: the marker word
/// `Stand ` followed by a two-digit day, a two-digit month and a four-digit
/// year, separated by dashes; sixteen bytes in all.
pub open spec fn stand_at(s: Seq<u8>, i: int) -> bool {
    &&& 0 <= i
    &&& i + 16 <= s.len()
    &&& s[i] == 83
    &&& s[i + 1] == 116
    &&& s[i + 2] == 97
    &&& s[i + 3] == 110
    &&& s[i + 4] == 100
    &&& s[i + 5] == 32
    &&& is_digit(s[i + 6])
    &&& is_digit(s[i + 7])
    &&& s[i + 8] == 45
    &&& is_digit(s[i + 9])
    &&& is_digit(s[i + 10])
    &&& s[i + 11] == 45
    &&& is_digit(s[i + 12])
    &&& is_digit(s[i + 13])
    &&& is_digit(s[i + 14])
    &&& is_digit(s[i + 15])
}

/// `s` with every revision stamp removed, scanning left to right without
/// overlap, from position `i` on.
pub open spec fn spec_remove_stamps(s: Seq<u8>, i: int) -> Seq<u8>
    decreases s.len() - i,
{
    if i < 0 || i >= s.len() {
        Seq::empty()
    } else if stand_at(s, i) {
        spec_remove_stamps(s, i + 16)
    } else {
        seq![s[i]] + spec_remove_stamps(s, i + 1)
    }
}

/// What the location field holds: the raw value with every revision stamp
/// removed and surrounding whitespace trimmed; it may be empty.
pub open spec fn spec_parse_location(s: Seq<u8>) -> Seq<u8> {
    spec_trim(spec_remove_stamps(s, 0))
}

fn stamp_here(s: &[u8], i: usize) -> (r: bool)
    requires
        i <= s@.len(),
    ensures
        r == stand_at(s@, i as int),
{
    if s.len() - i < 16 {
        return false;
    }
    s[i] == 83 && s[i + 1] == 116 && s[i + 2] == 97 && s[i + 3] == 110 && s[i + 4] == 100 && s[i
        + 5] == 32 && byte_is_digit(s[i + 6]) && byte_is_digit(s[i + 7]) && s[i + 8] == 45
        && byte_is_digit(s[i + 9]) && byte_is_digit(s[i + 10]) && s[i + 11] == 45 && byte_is_digit(
        s[i + 12],
    ) && byte_is_digit(s[i + 13]) && byte_is_digit(s[i + 14]) && byte_is_digit(s[i + 15])
}

/// Normalizes a location field: removes every trailing-revision stamp and
/// trims whitespace. The result may be empty.
pub fn parse_location(raw: &[u8]) -> (r: Vec<u8>)
    ensures
        r@ == spec_parse_location(raw@),
{
    let mut kept: Vec<u8> = Vec::new();
    let mut i: usize = 0;
    while i < raw.len()
        invariant
            i <= raw@.len(),
            kept@ + spec_remove_stamps(raw@, i as int) == spec_remove_stamps(raw@, 0),
        decreases raw@.len() - i,
    {
        if stamp_here(raw, i) {
            i = i + 16;
        } else {
            kept.push(raw[i]);
            proof {
                assert(kept@ + spec_remove_stamps(raw@, i as int + 1) =~= kept@.drop_last() + (
                seq![raw@[i as int]] + spec_remove_stamps(raw@, i as int + 1)));
            }
            i = i + 1;
        }
    }
    proof {
        assert(kept@ + spec_remove_stamps(raw@, i as int) =~= kept@);
        assert(kept@ == spec_remove_stamps(raw@, 0));
    }
    trim(kept.as_slice())
}

/// `s` with every CRLF pair replaced by a single LF, from position `i` on.
pub open spec fn spec_crlf_to_lf(s: Seq<u8>) -> Seq<u8>
    decreases s.len(),
{
    if s.len() == 0 {
        Seq::empty()
    } else if s.len() >= 2 && s[0] == 13 && s[1] == 10 {
        spec_crlf_to_lf(s.drop_first())
    } else {
        seq![s[0]] + spec_crlf_to_lf(s.drop_first())
    }
}

/// Normalizes line endings: every CRLF becomes a single LF.
pub fn normalize_newlines(s: &[u8]) -> (r: Vec<u8>)
    ensures
        r@ == spec_crlf_to_lf(s@),
{
    let mut r: Vec<u8> = Vec::new();
    proof {
        assert(s@.subrange(0, s@.len() as int) =~= s@);
    }
    let mut i: usize = 0;
    while i < s.len()
        invariant
            i <= s@.len(),
            r@ + spec_crlf_to_lf(s@.subrange(i as int, s@.len() as int)) == spec_crlf_to_lf(s@),
        decreases s@.len() - i,
    {
        let ghost cur = s@.subrange(i as int, s@.len() as int);
        proof {
            assert(cur[0] == s@[i as int]);
            if cur.len() >= 2 {
                assert(cur[1] == s@[i as int + 1]);
            }
            assert(cur.drop_first() =~= s@.subrange(i as int + 1, s@.len() as int));
        }
        if s[i] == 13 && i + 1 < s.len() && s[i + 1] == 10 {
        } else {
            r.push(s[i]);
            proof {
                assert(r@ + spec_crlf_to_lf(cur.drop_first()) =~= r@.drop_last() + (seq![
                    s@[i as int],
                ] + spec_crlf_to_lf(cur.drop_first())));
            }
        }
        i = i + 1;
    }
    proof {
        assert(r@ + spec_crlf_to_lf(s@.subrange(i as int, s@.len() as int)) =~= r@);
    }
    r
}

/// The position of the first LF at or after `i`, or the length if none.
pub open spec fn first_nl(s: Seq<u8>, i: int) -> int
    decreases s.len() - i,
{
    if i < 0 || i >= s.len() {
        s.len() as int
    } else if s[i] == 10 {
        i
    } else {
        first_nl(s, i + 1)
    }
}

pub proof fn lemma_first_nl_bounds(s: Seq<u8>, i: int)
    requires
        0 <= i <= s.len(),
    ensures
        i <= first_nl(s, i) <= s.len(),
        first_nl(s, i) < s.len() ==> s[first_nl(s, i)] == 10,
    decreases s.len() - i,
{
    if i < s.len() && s[i] != 10 {
        lemma_first_nl_bounds(s, i + 1);
    }
}

/// The lines of `s` from position `i` on, split at LF; the final line is
/// what follows the last LF, possibly empty.
pub open spec fn spec_lines_from(s: Seq<u8>, i: int) -> Seq<Seq<u8>>
    decreases s.len() - i,
    when 0 <= i <= s.len()
    via spec_lines_from_dec
{
    let j = first_nl(s, i);
    if j >= s.len() {
        seq![s.subrange(i, s.len() as int)]
    } else {
        seq![s.subrange(i, j)] + spec_lines_from(s, j + 1)
    }
}

#[via_fn]
proof fn spec_lines_from_dec(s: Seq<u8>, i: int) {
    lemma_first_nl_bounds(s, i);
}

/// The lines of `s`.
pub open spec fn spec_lines(s: Seq<u8>) -> Seq<Seq<u8>> {
    spec_lines_from(s, 0)
}

/// The byte contents of a list of lines.
pub open spec fn line_views(ls: Seq<Vec<u8>>) -> Seq<Seq<u8>> {
    ls.map_values(|l: Vec<u8>| l@)
}

/// Splits the normalized text into lines at LF.
pub fn split_lines(v: &Vec<u8>) -> (r: Vec<Vec<u8>>)
    ensures
        line_views(r@) == spec_lines(v@),
{
    let mut out: Vec<Vec<u8>> = Vec::new();
    let mut start: usize = 0;
    loop
        invariant_except_break
            start <= v@.len(),
            spec_lines(v@) == line_views(out@) + spec_lines_from(v@, start as int),
        ensures
            line_views(out@) == spec_lines(v@),
        decreases v@.len() - start,
    {
        let mut j: usize = start;
        while j < v.len() && v[j] != 10
            invariant
                start <= j <= v@.len(),
                first_nl(v@, start as int) == first_nl(v@, j as int),
            decreases v@.len() - j,
        {
            j = j + 1;
        }
        proof {
            assert(first_nl(v@, start as int) == j);
        }
        let mut line: Vec<u8> = Vec::new();
        line.extend_from_slice(&v.as_slice()[start..j]);
        proof {
            assert(line@ =~= v@.subrange(start as int, j as int));
        }
        out.push(line);
        if j == v.len() {
            proof {
                assert(spec_lines_from(v@, start as int) =~= seq![
                    v@.subrange(start as int, v@.len() as int),
                ]);
                assert(line_views(out@) =~= line_views(out@.drop_last()) + spec_lines_from(
                    v@,
                    start as int,
                ));
            }
            break ;
        }
        proof {
            assert(spec_lines_from(v@, start as int) == seq![
                v@.subrange(start as int, j as int),
            ] + spec_lines_from(v@, j as int + 1));
            assert(line_views(out@) =~= line_views(out@.drop_last()) + seq![
                v@.subrange(start as int, j as int),
            ]);
        }
        start = j + 1;
    }
    out
}

/// `BEGIN:VEVENT`
pub open spec fn begin_mark() -> Seq<u8> {
    seq![66u8, 69u8, 71u8, 73u8, 78u8, 58u8, 86u8, 69u8, 86u8, 69u8, 78u8, 84u8]
}

/// `SUMMARY:`
pub open spec fn summary_mark() -> Seq<u8> {
    seq![83u8, 85u8, 77u8, 77u8, 65u8, 82u8, 89u8, 58u8]
}

/// `LOCATION:`
pub open spec fn location_mark() -> Seq<u8> {
    seq![76u8, 79u8, 67u8, 65u8, 84u8, 73u8, 79u8, 78u8, 58u8]
}

/// `DESCRIPTION:`
pub open spec fn description_mark() -> Seq<u8> {
    seq![68u8, 69u8, 83u8, 67u8, 82u8, 73u8, 80u8, 84u8, 73u8, 79u8, 78u8, 58u8]
}

/// `UID:`
pub open spec fn uid_mark() -> Seq<u8> {
    seq![85u8, 73u8, 68u8, 58u8]
}

/// `DTSTART;TZID=Europe/Berlin:`
pub open spec fn dtstart_mark() -> Seq<u8> {
    seq![
        68u8, 84u8, 83u8, 84u8, 65u8, 82u8, 84u8, 59u8, 84u8, 90u8, 73u8, 68u8, 61u8, 69u8,
        117u8, 114u8, 111u8, 112u8, 101u8, 47u8, 66u8, 101u8, 114u8, 108u8, 105u8, 110u8, 58u8,
    ]
}

/// `DTEND;TZID=Europe/Berlin:`
pub open spec fn dtend_mark() -> Seq<u8> {
    seq![
        68u8, 84u8, 69u8, 78u8, 68u8, 59u8, 84u8, 90u8, 73u8, 68u8, 61u8, 69u8, 117u8, 114u8,
        111u8, 112u8, 101u8, 47u8, 66u8, 101u8, 114u8, 108u8, 105u8, 110u8, 58u8,
    ]
}

/// `END:VEVENT`
pub open spec fn end_mark() -> Seq<u8> {
    seq![69u8, 78u8, 68u8, 58u8, 86u8, 69u8, 86u8, 69u8, 78u8, 84u8]
}

fn push_all(v: &mut Vec<u8>, b0: u8, b1: u8, b2: u8, b3: u8)
    ensures
        final (v)@ == old(v)@ + seq![b0, b1, b2, b3],
{
    v.push(b0);
    v.push(b1);
    v.push(b2);
    v.push(b3);
    proof {
        assert(final (v)@ =~= old(v)@ + seq![b0, b1, b2, b3]);
    }
}

fn lit_begin() -> (r: Vec<u8>)
    ensures
        r@ == begin_mark(),
{
    let mut r: Vec<u8> = Vec::new();
    push_all(&mut r, 66, 69, 71, 73);
    push_all(&mut r, 78, 58, 86, 69);
    push_all(&mut r, 86, 69, 78, 84);
    proof {
        assert(r@ =~= begin_mark());
    }
    r
}

fn lit_summary() -> (r: Vec<u8>)
    ensures
        r@ == summary_mark(),
{
    let mut r: Vec<u8> = Vec::new();
    push_all(&mut r, 83, 85, 77, 77);
    push_all(&mut r, 65, 82, 89, 58);
    proof {
        assert(r@ =~= summary_mark());
    }
    r
}

fn lit_location() -> (r: Vec<u8>)
    ensures
        r@ == location_mark(),
{
    let mut r: Vec<u8> = Vec::new();
    push_all(&mut r, 76, 79, 67, 65);
    push_all(&mut r, 84, 73, 79, 78);
    r.push(58);
    proof {
        assert(r@ =~= location_mark());
    }
    r
}

fn lit_description() -> (r: Vec<u8>)
    ensures
        r@ == description_mark(),
{
    let mut r: Vec<u8> = Vec::new();
    push_all(&mut r, 68, 69, 83, 67);
    push_all(&mut r, 82, 73, 80, 84);
    push_all(&mut r, 73, 79, 78, 58);
    proof {
        assert(r@ =~= description_mark());
    }
    r
}

fn lit_uid() -> (r: Vec<u8>)
    ensures
        r@ == uid_mark(),
{
    let mut r: Vec<u8> = Vec::new();
    push_all(&mut r, 85, 73, 68, 58);
    proof {
        assert(r@ =~= uid_mark());
    }
    r
}

fn lit_dtstart() -> (r: Vec<u8>)
    ensures
        r@ == dtstart_mark(),
{
    let mut r: Vec<u8> = Vec::new();
    push_all(&mut r, 68, 84, 83, 84);
    push_all(&mut r, 65, 82, 84, 59);
    push_all(&mut r, 84, 90, 73, 68);
    push_all(&mut r, 61, 69, 117, 114);
    push_all(&mut r, 111, 112, 101, 47);
    push_all(&mut r, 66, 101, 114, 108);
    push_all(&mut r, 105, 110, 58, 58);
    let _ = r.pop();
    proof {
        assert(r@ =~= dtstart_mark());
    }
    r
}

fn lit_dtend() -> (r: Vec<u8>)
    ensures
        r@ == dtend_mark(),
{
    let mut r: Vec<u8> = Vec::new();
    push_all(&mut r, 68, 84, 69, 78);
    push_all(&mut r, 68, 59, 84, 90);
    push_all(&mut r, 73, 68, 61, 69);
    push_all(&mut r, 117, 114, 111, 112);
    push_all(&mut r, 101, 47, 66, 101);
    push_all(&mut r, 114, 108, 105, 110);
    r.push(58);
    proof {
        assert(r@ =~= dtend_mark());
    }
    r
}

fn lit_end() -> (r: Vec<u8>)
    ensures
        r@ == end_mark(),
{
    let mut r: Vec<u8> = Vec::new();
    push_all(&mut r, 69, 78, 68, 58);
    push_all(&mut r, 86, 69, 86, 69);
    push_all(&mut r, 78, 84, 78, 84);
    let _ = r.pop();
    let _ = r.pop();
    proof {
        assert(r@ =~= end_mark());
    }
    r
}

/// A field line of a block: it is followed by a newline (it is not the
/// final line), starts with the field's mark, and, unless the field may be
/// empty, carries something after the mark.
pub open spec fn field_line(ls: Seq<Seq<u8>>, j: int, mark: Seq<u8>, allow_empty: bool) -> bool {
    &&& 0 <= j
    &&& j + 1 < ls.len()
    &&& is_prefix(mark, ls[j])
    &&& (allow_empty || ls[j].len() > mark.len())
}

/// What follows the mark on line `j`.
pub open spec fn rest_of(ls: Seq<Seq<u8>>, j: int, mark: Seq<u8>) -> Seq<u8> {
    ls[j].subrange(mark.len() as int, ls[j].len() as int)
}

/// The raw captures of one occurrence block, and the line on which its
/// terminator was found.
pub struct RawCaps {
    pub summary: Seq<u8>,
    pub location: Seq<u8>,
    pub description: Option<Seq<u8>>,
    pub uid: Seq<u8>,
    pub dtstart: Seq<u8>,
    pub dtend: Seq<u8>,
    pub next: int,
}

/// A block may open on line `i`: the line ends with the opening mark and is
/// followed by a newline.
pub open spec fn block_opens(ls: Seq<Seq<u8>>, i: int) -> bool {
    0 <= i && i + 1 < ls.len() && is_suffix(begin_mark(), ls[i])
}

/// The block starting at opening line `i`, if the fixed shape matches
/// there: a summary line, a location line, an optional annotation line, an
/// identifier line, the two timestamp lines, and the terminator.
pub open spec fn match_at(ls: Seq<Seq<u8>>, i: int) -> Option<RawCaps> {
    if !(field_line(ls, i + 1, summary_mark(), false) && field_line(
        ls,
        i + 2,
        location_mark(),
        false,
    )) {
        None
    } else {
        let hasd = field_line(ls, i + 3, description_mark(), true);
        let base = if hasd {
            i + 4
        } else {
            i + 3
        };
        if field_line(ls, base, uid_mark(), false) && field_line(ls, base + 1, dtstart_mark(), false)
            && field_line(ls, base + 2, dtend_mark(), false) && base + 3 < ls.len() && is_prefix(
            end_mark(),
            ls[base + 3],
        ) {
            Some(
                RawCaps {
                    summary: rest_of(ls, i + 1, summary_mark()),
                    location: rest_of(ls, i + 2, location_mark()),
                    description: if hasd {
                        Some(rest_of(ls, i + 3, description_mark()))
                    } else {
                        None
                    },
                    uid: rest_of(ls, base, uid_mark()),
                    dtstart: rest_of(ls, base + 1, dtstart_mark()),
                    dtend: rest_of(ls, base + 2, dtend_mark()),
                    next: base + 3,
                },
            )
        } else {
            None
        }
    }
}

/// All blocks of the text, scanning from line `i`: the first block opening
/// at or after `i` that matches, then the blocks from its terminator line
/// on. A line that opens no matching block is passed over silently.
pub open spec fn spec_scan(ls: Seq<Seq<u8>>, i: int) -> Seq<RawCaps>
    decreases ls.len() - i,
    when 0 <= i
    via spec_scan_dec
{
    if i >= ls.len() {
        Seq::empty()
    } else if block_opens(ls, i) {
        match match_at(ls, i) {
            Some(c) => seq![c] + spec_scan(ls, c.next),
            None => spec_scan(ls, i + 1),
        }
    } else {
        spec_scan(ls, i + 1)
    }
}

#[via_fn]
proof fn spec_scan_dec(ls: Seq<Seq<u8>>, i: int) {
    if 0 <= i < ls.len() && block_opens(ls, i) {
        match match_at(ls, i) {
            Some(c) => {
                assert(c.next >= i + 6);
                assert(c.next < ls.len());
            },
            None => {},
        }
    }
}

/// Reading a timestamp field: trim it, read the civil time, resolve it in
/// the Berlin zone.
pub open spec fn spec_resolve_field(f: Seq<u8>) -> Option<ZonedDateTime> {
    match spec_parse_datetime(spec_trim(f)) {
        Some(c) => spec_resolve_berlin(c),
        None => None,
    }
}

/// The event record a block's captures denote, unless a timestamp fails.
pub open spec fn spec_event_of(c: RawCaps) -> Option<EventRec> {
    let annotation = match c.description {
        Some(d) => spec_trim(d),
        None => Seq::empty(),
    };
    match (spec_resolve_field(c.dtstart), spec_resolve_field(c.dtend)) {
        (Some(s), Some(e)) => Some(
            EventRec {
                name: spec_trim(c.summary),
                location: spec_parse_location(spec_trim(c.location)),
                description: spec_description(annotation),
                start: s,
                end: e,
            },
        ),
        _ => None,
    }
}

/// The records of a capture list, or nothing if any block's timestamps
/// fail: extraction is all-or-nothing at blob granularity.
pub open spec fn spec_events_of(cs: Seq<RawCaps>) -> Option<Seq<EventRec>>
    decreases cs.len(),
{
    if cs.len() == 0 {
        Some(Seq::empty())
    } else {
        match (spec_events_of(cs.drop_last()), spec_event_of(cs.last())) {
            (Some(es), Some(e)) => Some(es.push(e)),
            _ => None,
        }
    }
}

/// What parsing one blob yields: line endings are normalized, occurrence
/// blocks are scanned out, and each becomes one record; a timestamp failure
/// anywhere fails the whole blob.
pub open spec fn spec_parse(s: Seq<u8>) -> Option<Seq<EventRec>> {
    spec_events_of(spec_scan(spec_lines(spec_crlf_to_lf(s)), 0))
}

/// A capture list whose records exist has a record for each capture.
proof fn lemma_events_of_all_some(cs: Seq<RawCaps>, k: int)
    requires
        spec_events_of(cs) is Some,
        0 <= k < cs.len(),
    ensures
        spec_event_of(cs[k]) is Some,
    decreases cs.len(),
{
    if k < cs.len() - 1 {
        lemma_events_of_all_some(cs.drop_last(), k);
    }
}

/// The raw captures of one block, as carried at run time.
pub struct Caps {
    pub summary: Vec<u8>,
    pub location: Vec<u8>,
    pub description: Option<Vec<u8>>,
    pub uid: Vec<u8>,
    pub dtstart: Vec<u8>,
    pub dtend: Vec<u8>,
    pub next: usize,
}

impl View for Caps {
    type V = RawCaps;

    open spec fn view(&self) -> RawCaps {
        RawCaps {
            summary: self.summary@,
            location: self.location@,
            description: match self.description {
                Some(d) => Some(d@),
                None => None,
            },
            uid: self.uid@,
            dtstart: self.dtstart@,
            dtend: self.dtend@,
            next: self.next as int,
        }
    }
}

/// Checks one field line and hands back what follows the mark.
fn field_rest(lines: &Vec<Vec<u8>>, j: usize, mark: &Vec<u8>, allow_empty: bool) -> (r: Option<
    Vec<u8>,
>)
    requires
        j <= lines@.len(),
    ensures
        r is Some <==> field_line(line_views(lines@), j as int, mark@, allow_empty),
        r matches Some(v) ==> v@ == rest_of(line_views(lines@), j as int, mark@),
{
    if j >= lines.len() {
        return None;
    }
    if j + 1 >= lines.len() {
        return None;
    }
    let line = &lines[j];
    proof {
        assert(line_views(lines@)[j as int] == lines@[j as int]@);
    }
    if !has_prefix(line.as_slice(), mark.as_slice()) {
        return None;
    }
    if !allow_empty && line.len() == mark.len() {
        return None;
    }
    let mut out: Vec<u8> = Vec::new();
    out.extend_from_slice(&line.as_slice()[mark.len()..line.len()]);
    proof {
        assert(out@ =~= rest_of(line_views(lines@), j as int, mark@));
    }
    Some(out)
}

/// Tries to read the fixed block shape opening at line `i`.
fn match_block(lines: &Vec<Vec<u8>>, i: usize) -> (r: Option<Caps>)
    requires
        i < lines@.len(),
    ensures
        match r {
            Some(c) => match_at(line_views(lines@), i as int) == Some(c@),
            None => match_at(line_views(lines@), i as int) is None,
        },
{
    let ghost lv = line_views(lines@);
    if lines.len() - i < 7 {
        proof {
            assert(!field_line(lv, i as int + 3 + 2, dtend_mark(), false));
            assert(!field_line(lv, i as int + 4 + 2, dtend_mark(), false));
        }
        return None;
    }
    let summary = match field_rest(lines, i + 1, &lit_summary(), false) {
        Some(v) => v,
        None => {
            return None;
        },
    };
    let location = match field_rest(lines, i + 2, &lit_location(), false) {
        Some(v) => v,
        None => {
            return None;
        },
    };
    let description = field_rest(lines, i + 3, &lit_description(), true);
    let base: usize = if description.is_some() {
        i + 4
    } else {
        i + 3
    };
    let uid = match field_rest(lines, base, &lit_uid(), false) {
        Some(v) => v,
        None => {
            return None;
        },
    };
    let dtstart = match field_rest(lines, base + 1, &lit_dtstart(), false) {
        Some(v) => v,
        None => {
            return None;
        },
    };
    let dtend = match field_rest(lines, base + 2, &lit_dtend(), false) {
        Some(v) => v,
        None => {
            return None;
        },
    };
    let endline: usize = base + 3;
    if endline >= lines.len() {
        return None;
    }
    proof {
        assert(lv[endline as int] == lines@[endline as int]@);
    }
    if !has_prefix(lines[endline].as_slice(), lit_end().as_slice()) {
        return None;
    }
    Some(Caps { summary, location, description, uid, dtstart, dtend, next: endline })
}

/// Reading and resolving a (not yet trimmed) timestamp field.
fn resolve_field(f: &[u8]) -> (r: Option<ZonedDateTime>)
    ensures
        r == spec_resolve_field(f@),
        r matches Some(z) ==> z.valid(),
{
    let t = trim(f);
    match parse_datetime(t.as_slice()) {
        Some(c) => resolve_berlin(c),
        None => None,
    }
}

/// The record a block's captures denote, unless a timestamp fails.
fn event_of_caps(c: &Caps) -> (r: Option<EventEntry>)
    ensures
        match r {
            Some(e) => spec_event_of(c@) == Some(e@) && e.wf(),
            None => spec_event_of(c@) is None,
        },
{
    let start = match resolve_field(c.dtstart.as_slice()) {
        Some(z) => z,
        None => {
            return None;
        },
    };
    let end = match resolve_field(c.dtend.as_slice()) {
        Some(z) => z,
        None => {
            return None;
        },
    };
    let name = trim(c.summary.as_slice());
    let tloc = trim(c.location.as_slice());
    let location = parse_location(tloc.as_slice());
    let annotation: Vec<u8> = match &c.description {
        Some(d) => trim(d.as_slice()),
        None => Vec::new(),
    };
    proof {
        if c.description is None {
            assert(annotation@ =~= Seq::<u8>::empty());
        }
    }
    let description = parse_description(annotation.as_slice());
    Some(EventEntry { name, location, description, start, end })
}

/// Extracts the occurrence blocks of one text blob as event records.
/// Blocks not matching the fixed shape are passed over silently; a matched
/// block whose timestamps cannot be read and resolved fails the whole blob,
/// and no partial result is returned.
pub fn parse(ics_body: &[u8]) -> (r: Result<Vec<EventEntry>, ParseError>)
    ensures
        match r {
            Ok(v) => spec_parse(ics_body@) == Some(views(v@)) && all_wf(views(v@)),
            Err(_) => spec_parse(ics_body@) is None,
        },
{
    let norm = normalize_newlines(ics_body);
    let lines = split_lines(&norm);
    let ghost lv = line_views(lines@);
    let begin = lit_begin();
    let mut result: Vec<EventEntry> = Vec::new();
    let ghost mut cdone: Seq<RawCaps> = Seq::empty();
    proof {
        assert(cdone + spec_scan(lv, 0) =~= spec_scan(lv, 0));
    }
    let mut i: usize = 0;
    while i < lines.len()
        invariant
            i <= lines@.len(),
            lv == line_views(lines@),
            lv == spec_lines(spec_crlf_to_lf(ics_body@)),
            lines@.len() == lv.len(),
            begin@ == begin_mark(),
            spec_scan(lv, 0) == cdone + spec_scan(lv, i as int),
            spec_events_of(cdone) == Some(views(result@)),
            all_wf(views(result@)),
        decreases lv.len() - i,
    {
        proof {
            assert(lv[i as int] == lines@[i as int]@);
        }
        let opens = i + 1 < lines.len() && has_suffix(lines[i].as_slice(), begin.as_slice());
        if opens {
            match match_block(&lines, i) {
                Some(c) => {
                    match event_of_caps(&c) {
                        Some(e) => {
                            let ghost old_done = cdone;
                            let ghost old_res = views(result@);
                            let next = c.next;
                            proof {
                                assert(spec_scan(lv, i as int) == seq![c@] + spec_scan(
                                    lv,
                                    c@.next,
                                ));
                                cdone = cdone.push(c@);
                                assert(cdone + spec_scan(lv, c@.next) =~= old_done + (seq![c@]
                                    + spec_scan(lv, c@.next)));
                                assert(cdone.drop_last() =~= old_done);
                                assert(cdone.last() == c@);
                            }
                            result.push(e);
                            proof {
                                assert(views(result@) =~= old_res.push(e@));
                                assert(spec_events_of(cdone) == Some(views(result@)));
                                assert(c@.next >= i + 6);
                                assert(all_wf(views(result@))) by {
                                    assert(forall|k: int|
                                        0 <= k < old_res.len() ==> (#[trigger] views(
                                            result@,
                                        )[k]) == old_res[k]);
                                }
                            }
                            i = next;
                        },
                        None => {
                            proof {
                                let whole = spec_scan(lv, 0);
                                assert(spec_scan(lv, i as int) == seq![c@] + spec_scan(
                                    lv,
                                    c@.next,
                                ));
                                assert(whole[cdone.len() as int] == c@);
                                if spec_events_of(whole) is Some {
                                    lemma_events_of_all_some(whole, cdone.len() as int);
                                }
                            }
                            return Err(ParseError::DateFieldFailure);
                        },
                    }
                },
                None => {
                    i = i + 1;
                },
            }
        } else {
            i = i + 1;
        }
    }
    proof {
        assert(spec_scan(lv, i as int) =~= Seq::<RawCaps>::empty());
        assert(cdone + spec_scan(lv, i as int) =~= cdone);
    }
    Ok(result)
}

} // verus!
