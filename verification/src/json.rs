//! Stable serialization: JSON string escaping, timestamp rendering with an
//! explicit UTC offset, the pretty-printed per-series array, and the index
//! listing. Equal logical content always serializes to byte-identical
//! output, which is what makes the diff-write discipline reliable.

use vstd::prelude::*;
use crate::datetime::ZonedDateTime;
use crate::event_entry::{views, EventEntry, EventEntryV4, EventRec};
use crate::text::{dec_digits, dec_pad, push_dec, push_dec_pad};

verus! {

/// The lowercase hexadecimal digit for `n`.
pub open spec fn hex_digit(n: int) -> u8 {
    if n < 10 {
        (48 + n) as u8
    } else {
        (87 + n) as u8
    }
}

/// How one byte of a string appears inside a JSON string literal: quote and
/// backslash are escaped, control bytes get their short escape or a
/// `\u00..` escape, and everything else (UTF-8 continuation bytes included)
/// passes through.
pub open spec fn escape_byte(b: u8) -> Seq<u8> {
    if b == 34 {
        seq![92u8, 34u8]
    } else if b == 92 {
        seq![92u8, 92u8]
    } else if b == 8 {
        seq![92u8, 98u8]
    } else if b == 9 {
        seq![92u8, 116u8]
    } else if b == 10 {
        seq![92u8, 110u8]
    } else if b == 12 {
        seq![92u8, 102u8]
    } else if b == 13 {
        seq![92u8, 114u8]
    } else if b < 32 {
        seq![92u8, 117u8, 48u8, 48u8, hex_digit(b as int / 16), hex_digit(b as int % 16)]
    } else {
        seq![b]
    }
}

pub open spec fn spec_escape(s: Seq<u8>) -> Seq<u8>
    decreases s.len(),
{
    if s.len() == 0 {
        Seq::empty()
    } else {
        escape_byte(s[0]) + spec_escape(s.drop_first())
    }
}

/// A JSON string literal: quotes around the escaped content.
pub open spec fn spec_quoted(s: Seq<u8>) -> Seq<u8> {
    seq![34u8] + spec_escape(s) + seq![34u8]
}

/// Appends one byte in its escaped form.
fn push_escaped_byte(out: &mut Vec<u8>, b: u8)
    ensures
        final (out)@ == old(out)@ + escape_byte(b),
{
    if b == 34 {
        out.push(92);
        out.push(34);
    } else if b == 92 {
        out.push(92);
        out.push(92);
    } else if b == 8 {
        out.push(92);
        out.push(98);
    } else if b == 9 {
        out.push(92);
        out.push(116);
    } else if b == 10 {
        out.push(92);
        out.push(110);
    } else if b == 12 {
        out.push(92);
        out.push(102);
    } else if b == 13 {
        out.push(92);
        out.push(114);
    } else if b < 32 {
        out.push(92);
        out.push(117);
        out.push(48);
        out.push(48);
        let hi: u8 = b / 16;
        let lo: u8 = b % 16;
        if hi < 10 {
            out.push(48 + hi);
        } else {
            out.push(87 + hi);
        }
        if lo < 10 {
            out.push(48 + lo);
        } else {
            out.push(87 + lo);
        }
    } else {
        out.push(b);
    }
    proof {
        assert(final (out)@ =~= old(out)@ + escape_byte(b));
    }
}

/// Appends `s` as a JSON string literal.
fn push_quoted(out: &mut Vec<u8>, s: &Vec<u8>)
    ensures
        final (out)@ == old(out)@ + spec_quoted(s@),
{
    out.push(34);
    let ghost base = out@;
    proof {
        assert(s@.subrange(0, s@.len() as int) =~= s@);
        assert(spec_escape(s@.subrange(0, 0)) + spec_escape(s@) =~= spec_escape(s@));
    }
    let mut i: usize = 0;
    while i < s.len()
        invariant
            i <= s@.len(),
            out@ == base + spec_escape(s@.subrange(0, i as int)),
        decreases s@.len() - i,
    {
        push_escaped_byte(out, s[i]);
        proof {
            let pre = s@.subrange(0, i as int);
            let pre1 = s@.subrange(0, i as int + 1);
            lemma_escape_snoc(pre1);
            assert(pre1.drop_last() =~= pre);
            assert(out@ =~= base + spec_escape(pre1));
        }
        i = i + 1;
    }
    proof {
        assert(s@.subrange(0, s@.len() as int) =~= s@);
    }
    out.push(34);
    proof {
        assert(final (out)@ =~= old(out)@ + spec_quoted(s@));
    }
}

/// Escaping appends bytewise: the escape of a string plus one byte.
proof fn lemma_escape_snoc(s: Seq<u8>)
    requires
        s.len() > 0,
    ensures
        spec_escape(s) == spec_escape(s.drop_last()) + escape_byte(s.last()),
    decreases s.len(),
{
    if s.len() == 1 {
        assert(s.drop_first().len() == 0);
        assert(spec_escape(s.drop_first()) =~= Seq::<u8>::empty());
        assert(spec_escape(s.drop_last()) =~= Seq::<u8>::empty());
        assert(s.last() == s[0]);
        assert(spec_escape(s) == escape_byte(s[0]) + spec_escape(s.drop_first()));
        assert(spec_escape(s) =~= spec_escape(s.drop_last()) + escape_byte(s.last()));
    } else {
        lemma_escape_snoc(s.drop_first());
        assert(s.drop_first().drop_last() =~= s.drop_last().drop_first());
        assert(s.drop_first().last() == s.last());
        assert(s.drop_last()[0] == s[0]);
        assert(spec_escape(s) == escape_byte(s[0]) + spec_escape(s.drop_first()));
        assert(escape_byte(s[0]) + (spec_escape(s.drop_first().drop_last()) + escape_byte(
            s.last(),
        )) =~= (escape_byte(s.drop_last()[0]) + spec_escape(s.drop_last().drop_first()))
            + escape_byte(s.last()));
    }
}

/// The timestamp string: date, time and the UTC offset, `+HH:MM` style
/// (`YYYY-MM-DDTHH:MM:SS+HH:MM`); years of five or more digits keep all
/// their digits.
pub open spec fn spec_rfc3339(z: ZonedDateTime) -> Seq<u8> {
    let year = if z.civil.year < 10000 {
        dec_pad(z.civil.year as nat, 4)
    } else {
        dec_digits(z.civil.year as nat)
    };
    let off = abs_offset(z);
    year + seq![45u8] + dec_pad(z.civil.month as nat, 2) + seq![45u8] + dec_pad(
        z.civil.day as nat,
        2,
    ) + seq![84u8] + dec_pad(z.civil.hour as nat, 2) + seq![58u8] + dec_pad(
        z.civil.minute as nat,
        2,
    ) + seq![58u8] + dec_pad(z.civil.second as nat, 2) + seq![
        if z.offset_seconds < 0 {
            45u8
        } else {
            43u8
        },
    ] + dec_pad((off / 3600) as nat, 2) + seq![58u8] + dec_pad((off % 3600 / 60) as nat, 2)
}

/// The offset's magnitude in seconds.
pub open spec fn abs_offset(z: ZonedDateTime) -> int {
    if z.offset_seconds < 0 {
        -(z.offset_seconds as int)
    } else {
        z.offset_seconds as int
    }
}

/// Appends the timestamp string for `z`.
#[verifier::rlimit(50)]
pub fn push_rfc3339(out: &mut Vec<u8>, z: &ZonedDateTime)
    requires
        z.valid(),
    ensures
        final (out)@ == old(out)@ + spec_rfc3339(*z),
{
    if z.civil.year < 10000 {
        push_dec_pad(out, z.civil.year as u32, 4);
    } else {
        push_dec(out, z.civil.year as u32);
    }
    out.push(45);
    push_dec_pad(out, z.civil.month as u32, 2);
    out.push(45);
    push_dec_pad(out, z.civil.day as u32, 2);
    out.push(84);
    push_dec_pad(out, z.civil.hour as u32, 2);
    out.push(58);
    push_dec_pad(out, z.civil.minute as u32, 2);
    out.push(58);
    push_dec_pad(out, z.civil.second as u32, 2);
    let off: i32 = z.offset_seconds;
    let mag: u32 = if off < 0 {
        out.push(45);
        (-(off as i64)) as u32
    } else {
        out.push(43);
        off as u32
    };
    proof {
        assert(mag == abs_offset(*z));
    }
    push_dec_pad(out, mag / 3600, 2);
    out.push(58);
    push_dec_pad(out, mag % 3600 / 60, 2);
    proof {
        assert(final (out)@ =~= old(out)@ + spec_rfc3339(*z));
    }
}

/// `"Name": ` and its fellows, as they appear inside the object.
pub open spec fn name_key() -> Seq<u8> {
    seq![34u8, 78u8, 97u8, 109u8, 101u8, 34u8, 58u8, 32u8]
}

pub open spec fn location_key() -> Seq<u8> {
    seq![34u8, 76u8, 111u8, 99u8, 97u8, 116u8, 105u8, 111u8, 110u8, 34u8, 58u8, 32u8]
}

pub open spec fn description_key() -> Seq<u8> {
    seq![
        34u8, 68u8, 101u8, 115u8, 99u8, 114u8, 105u8, 112u8, 116u8, 105u8, 111u8, 110u8, 34u8,
        58u8, 32u8,
    ]
}

pub open spec fn start_time_key() -> Seq<u8> {
    seq![34u8, 83u8, 116u8, 97u8, 114u8, 116u8, 84u8, 105u8, 109u8, 101u8, 34u8, 58u8, 32u8]
}

pub open spec fn end_time_key() -> Seq<u8> {
    seq![34u8, 69u8, 110u8, 100u8, 84u8, 105u8, 109u8, 101u8, 34u8, 58u8, 32u8]
}

/// One record as a pretty-printed JSON object, two-space indented, standing
/// one level deep inside the series array.
#[verifier::opaque]
pub open spec fn spec_event_obj(e: EventRec) -> Seq<u8> {
    seq![123u8, 10u8, 32u8, 32u8, 32u8, 32u8] + name_key() + spec_quoted(e.name) + seq![
        44u8, 10u8, 32u8, 32u8, 32u8, 32u8,
    ] + location_key() + spec_quoted(e.location) + seq![44u8, 10u8, 32u8, 32u8, 32u8, 32u8]
        + description_key() + spec_quoted(e.description) + seq![44u8, 10u8, 32u8, 32u8, 32u8, 32u8]
        + start_time_key() + seq![34u8] + spec_rfc3339(e.start) + seq![
        34u8, 44u8, 10u8, 32u8, 32u8, 32u8, 32u8,
    ] + end_time_key() + seq![34u8] + spec_rfc3339(e.end) + seq![34u8, 10u8, 32u8, 32u8, 125u8]
}

/// The objects of a series array, comma-separated, each on its own
/// two-space-indented line.
pub open spec fn spec_series_items(evs: Seq<EventRec>) -> Seq<u8>
    decreases evs.len(),
{
    if evs.len() == 0 {
        Seq::empty()
    } else if evs.len() == 1 {
        seq![32u8, 32u8] + spec_event_obj(evs[0])
    } else {
        spec_series_items(evs.drop_last()) + seq![44u8, 10u8, 32u8, 32u8] + spec_event_obj(
            evs.last(),
        )
    }
}

/// One series as its persisted JSON array: pretty-printed with two-space
/// indentation and a trailing newline; an empty series is `[]` and the
/// newline.
pub open spec fn spec_series_json(evs: Seq<EventRec>) -> Seq<u8> {
    if evs.len() == 0 {
        seq![91u8, 93u8, 10u8]
    } else {
        seq![91u8, 10u8] + spec_series_items(evs) + seq![10u8, 93u8, 10u8]
    }
}

/// Appends one record as its JSON object.
#[verifier::rlimit(50)]
fn push_event_obj(out: &mut Vec<u8>, e: &EventEntryV4)
    requires
        e.wf(),
    ensures
        final (out)@ == old(out)@ + spec_event_obj(e@),
{
    out.push(123);
    out.push(10);
    push_spaces4(out);
    push_bytes(out, &[34, 78, 97, 109, 101, 34, 58, 32]);
    proof {
        assert(out@ =~= old(out)@ + seq![123u8, 10u8, 32u8, 32u8, 32u8, 32u8] + name_key());
    }
    push_quoted(out, &e.name);
    push_sep(out);
    push_bytes(out, &[34, 76, 111, 99, 97, 116, 105, 111, 110, 34, 58, 32]);
    push_quoted(out, &e.location);
    push_sep(out);
    push_bytes(out, &[34, 68, 101, 115, 99, 114, 105, 112, 116, 105, 111, 110, 34, 58, 32]);
    push_quoted(out, &e.description);
    push_sep(out);
    push_bytes(out, &[34, 83, 116, 97, 114, 116, 84, 105, 109, 101, 34, 58, 32]);
    out.push(34);
    push_rfc3339(out, &e.start_time);
    out.push(34);
    push_sep(out);
    push_bytes(out, &[34, 69, 110, 100, 84, 105, 109, 101, 34, 58, 32]);
    out.push(34);
    push_rfc3339(out, &e.end_time);
    out.push(34);
    out.push(10);
    out.push(32);
    out.push(32);
    out.push(125);
    proof {
        reveal(spec_event_obj);
        assert(final (out)@ =~= old(out)@ + spec_event_obj(e@));
    }
}

/// Appends a comma, a line break and the element indentation.
fn push_sep(out: &mut Vec<u8>)
    ensures
        final (out)@ == old(out)@ + seq![44u8, 10u8, 32u8, 32u8, 32u8, 32u8],
{
    out.push(44);
    out.push(10);
    push_spaces4(out);
    proof {
        assert(final (out)@ =~= old(out)@ + seq![44u8, 10u8, 32u8, 32u8, 32u8, 32u8]);
    }
}

fn push_spaces4(out: &mut Vec<u8>)
    ensures
        final (out)@ == old(out)@ + seq![32u8, 32u8, 32u8, 32u8],
{
    out.push(32);
    out.push(32);
    out.push(32);
    out.push(32);
    proof {
        assert(final (out)@ =~= old(out)@ + seq![32u8, 32u8, 32u8, 32u8]);
    }
}

/// Appends a short literal byte string.
fn push_bytes(out: &mut Vec<u8>, bytes: &[u8])
    ensures
        final (out)@ == old(out)@ + bytes@,
{
    out.extend_from_slice(bytes);
}

/// Renders one series as its persisted JSON array.
pub fn render_series(events: &Vec<EventEntry>) -> (r: Vec<u8>)
    requires
        forall|j: int| 0 <= j < events@.len() ==> (#[trigger] events@[j]).wf(),
    ensures
        r@ == spec_series_json(views(events@)),
{
    let mut r: Vec<u8> = Vec::new();
    if events.len() == 0 {
        r.push(91);
        r.push(93);
        r.push(10);
        proof {
            assert(r@ =~= spec_series_json(views(events@)));
        }
        return r;
    }
    r.push(91);
    r.push(10);
    let ghost base = r@;
    let mut i: usize = 0;
    while i < events.len()
        invariant
            i <= events@.len(),
            events@.len() > 0,
            forall|j: int| 0 <= j < events@.len() ==> (#[trigger] events@[j]).wf(),
            r@ == base + spec_series_items(views(events@).subrange(0, i as int)),
        decreases events@.len() - i,
    {
        if i == 0 {
            r.push(32);
            r.push(32);
        } else {
            r.push(44);
            r.push(10);
            r.push(32);
            r.push(32);
        }
        let v4 = EventEntryV4::from(events[i].duplicate());
        push_event_obj(&mut r, &v4);
        proof {
            let pre = views(events@).subrange(0, i as int);
            let pre1 = views(events@).subrange(0, i as int + 1);
            assert(pre1.drop_last() =~= pre);
            assert(pre1.last() == events@[i as int]@);
            assert(r@ =~= base + spec_series_items(pre1));
        }
        i = i + 1;
    }
    proof {
        assert(views(events@).subrange(0, i as int) =~= views(events@));
    }
    r.push(10);
    r.push(93);
    r.push(10);
    proof {
        assert(r@ =~= spec_series_json(views(events@)));
    }
    r
}

/// One record as it stands in a per-feed file: the same five fields under
/// lowercase keys, tab-indented.
#[verifier::opaque]
pub open spec fn spec_feed_obj(e: EventRec) -> Seq<u8> {
    seq![123u8, 10u8, 9u8, 9u8] + seq![34u8, 110u8, 97u8, 109u8, 101u8, 34u8, 58u8, 32u8]
        + spec_quoted(e.name) + seq![44u8, 10u8, 9u8, 9u8] + seq![
        34u8, 108u8, 111u8, 99u8, 97u8, 116u8, 105u8, 111u8, 110u8, 34u8, 58u8, 32u8,
    ] + spec_quoted(e.location) + seq![44u8, 10u8, 9u8, 9u8] + seq![
        34u8, 100u8, 101u8, 115u8, 99u8, 114u8, 105u8, 112u8, 116u8, 105u8, 111u8, 110u8, 34u8,
        58u8, 32u8,
    ] + spec_quoted(e.description) + seq![44u8, 10u8, 9u8, 9u8] + seq![
        34u8, 115u8, 116u8, 97u8, 114u8, 116u8, 34u8, 58u8, 32u8,
    ] + seq![34u8] + spec_rfc3339(e.start) + seq![34u8, 44u8, 10u8, 9u8, 9u8] + seq![
        34u8, 101u8, 110u8, 100u8, 34u8, 58u8, 32u8,
    ] + seq![34u8] + spec_rfc3339(e.end) + seq![34u8, 10u8, 9u8, 125u8]
}

pub open spec fn spec_feed_items(evs: Seq<EventRec>) -> Seq<u8>
    decreases evs.len(),
{
    if evs.len() == 0 {
        Seq::empty()
    } else if evs.len() == 1 {
        seq![9u8] + spec_feed_obj(evs[0])
    } else {
        spec_feed_items(evs.drop_last()) + seq![44u8, 10u8, 9u8] + spec_feed_obj(evs.last())
    }
}

/// A per-feed file: the records as a tab-indented JSON array with a
/// trailing newline; an empty feed is `[]` and the newline.
pub open spec fn spec_feed_json(evs: Seq<EventRec>) -> Seq<u8> {
    if evs.len() == 0 {
        seq![91u8, 93u8, 10u8]
    } else {
        seq![91u8, 10u8] + spec_feed_items(evs) + seq![10u8, 93u8, 10u8]
    }
}

/// Appends one record as its per-feed JSON object.
#[verifier::rlimit(50)]
fn push_feed_obj(out: &mut Vec<u8>, e: &EventEntry)
    requires
        e.wf(),
    ensures
        final (out)@ == old(out)@ + spec_feed_obj(e@),
{
    out.push(123);
    out.push(10);
    out.push(9);
    out.push(9);
    push_bytes(out, &[34, 110, 97, 109, 101, 34, 58, 32]);
    push_quoted(out, &e.name);
    push_feed_sep(out);
    push_bytes(out, &[34, 108, 111, 99, 97, 116, 105, 111, 110, 34, 58, 32]);
    push_quoted(out, &e.location);
    push_feed_sep(out);
    push_bytes(out, &[34, 100, 101, 115, 99, 114, 105, 112, 116, 105, 111, 110, 34, 58, 32]);
    push_quoted(out, &e.description);
    push_feed_sep(out);
    push_bytes(out, &[34, 115, 116, 97, 114, 116, 34, 58, 32]);
    out.push(34);
    push_rfc3339(out, &e.start);
    out.push(34);
    push_feed_sep(out);
    push_bytes(out, &[34, 101, 110, 100, 34, 58, 32]);
    out.push(34);
    push_rfc3339(out, &e.end);
    out.push(34);
    out.push(10);
    out.push(9);
    out.push(125);
    proof {
        reveal(spec_feed_obj);
        assert(final (out)@ =~= old(out)@ + spec_feed_obj(e@));
    }
}

fn push_feed_sep(out: &mut Vec<u8>)
    ensures
        final (out)@ == old(out)@ + seq![44u8, 10u8, 9u8, 9u8],
{
    out.push(44);
    out.push(10);
    out.push(9);
    out.push(9);
    proof {
        assert(final (out)@ =~= old(out)@ + seq![44u8, 10u8, 9u8, 9u8]);
    }
}

/// Renders the records of one fetched feed as its stored JSON file.
pub fn render_feed(events: &Vec<EventEntry>) -> (r: Vec<u8>)
    requires
        forall|j: int| 0 <= j < events@.len() ==> (#[trigger] events@[j]).wf(),
    ensures
        r@ == spec_feed_json(views(events@)),
{
    let mut r: Vec<u8> = Vec::new();
    if events.len() == 0 {
        r.push(91);
        r.push(93);
        r.push(10);
        proof {
            assert(r@ =~= spec_feed_json(views(events@)));
        }
        return r;
    }
    r.push(91);
    r.push(10);
    let ghost base = r@;
    let mut i: usize = 0;
    while i < events.len()
        invariant
            i <= events@.len(),
            events@.len() > 0,
            forall|j: int| 0 <= j < events@.len() ==> (#[trigger] events@[j]).wf(),
            r@ == base + spec_feed_items(views(events@).subrange(0, i as int)),
        decreases events@.len() - i,
    {
        if i == 0 {
            r.push(9);
        } else {
            r.push(44);
            r.push(10);
            r.push(9);
        }
        push_feed_obj(&mut r, &events[i]);
        proof {
            let pre = views(events@).subrange(0, i as int);
            let pre1 = views(events@).subrange(0, i as int + 1);
            assert(pre1.drop_last() =~= pre);
            assert(pre1.last() == events@[i as int]@);
            assert(r@ =~= base + spec_feed_items(pre1));
        }
        i = i + 1;
    }
    proof {
        assert(views(events@).subrange(0, i as int) =~= views(events@));
    }
    r.push(10);
    r.push(93);
    r.push(10);
    proof {
        assert(r@ =~= spec_feed_json(views(events@)));
    }
    r
}

/// The newline-joined listing: every name on its own line, with a trailing
/// newline; with no names it is a single newline.
pub open spec fn spec_index_body(names: Seq<Seq<u8>>) -> Seq<u8>
    decreases names.len(),
{
    if names.len() == 0 {
        Seq::empty()
    } else if names.len() == 1 {
        names[0]
    } else {
        spec_index_body(names.drop_last()) + seq![10u8] + names.last()
    }
}

pub open spec fn spec_index(names: Seq<Seq<u8>>) -> Seq<u8> {
    spec_index_body(names) + seq![10u8]
}

/// Renders the index listing from the (already ordered) names.
pub fn render_index(names: &Vec<Vec<u8>>) -> (r: Vec<u8>)
    ensures
        r@ == spec_index(names@.map_values(|n: Vec<u8>| n@)),
{
    let ghost nv = names@.map_values(|n: Vec<u8>| n@);
    let mut r: Vec<u8> = Vec::new();
    let mut i: usize = 0;
    while i < names.len()
        invariant
            i <= names@.len(),
            nv == names@.map_values(|n: Vec<u8>| n@),
            r@ == spec_index_body(nv.subrange(0, i as int)),
        decreases names@.len() - i,
    {
        if i > 0 {
            r.push(10);
        }
        push_bytes(&mut r, names[i].as_slice());
        proof {
            let pre = nv.subrange(0, i as int);
            let pre1 = nv.subrange(0, i as int + 1);
            assert(pre1.drop_last() =~= pre);
            assert(pre1.last() == names@[i as int]@);
            assert(r@ =~= spec_index_body(pre1));
        }
        i = i + 1;
    }
    proof {
        assert(nv.subrange(0, i as int) =~= nv);
    }
    r.push(10);
    proof {
        assert(r@ =~= spec_index(nv));
    }
    r
}

} // verus!
