//! The event record: five fields identifying one calendar occurrence, the
//! canonical total order on records, and the record shape used when a
//! snapshot is rendered.

use vstd::prelude::*;
use vstd::relations::total_ordering;
use crate::datetime::{spec_zoned_le, zoned_le, ZonedDateTime};
use crate::text::{lemma_lex_le_antisymmetric, lemma_lex_le_reflexive, lemma_lex_le_total,
    lemma_lex_le_transitive, lex_le, bytes_le};

verus! {

/// One calendar occurrence. Text fields hold UTF-8 bytes; `start` and `end`
/// are civil times resolved in one fixed timezone.
pub struct EventEntry {
    pub name: Vec<u8>,
    pub location: Vec<u8>,
    pub description: Vec<u8>,
    pub start: ZonedDateTime,
    pub end: ZonedDateTime,
}

/// The mathematical value of an event record.
pub struct EventRec {
    pub name: Seq<u8>,
    pub location: Seq<u8>,
    pub description: Seq<u8>,
    pub start: ZonedDateTime,
    pub end: ZonedDateTime,
}

impl View for EventEntry {
    type V = EventRec;

    open spec fn view(&self) -> EventRec {
        EventRec {
            name: self.name@,
            location: self.location@,
            description: self.description@,
            start: self.start,
            end: self.end,
        }
    }
}

impl EventRec {
    /// Well-formedness: both instants are resolved civil timestamps.
    pub open spec fn wf(self) -> bool {
        self.start.valid() && self.end.valid()
    }
}

impl EventEntry {
    pub open spec fn wf(self) -> bool {
        self@.wf()
    }

    /// An independent copy of the record.
    pub fn duplicate(&self) -> (r: EventEntry)
        ensures
            r@ == self@,
    {
        EventEntry {
            name: copy_bytes(&self.name),
            location: copy_bytes(&self.location),
            description: copy_bytes(&self.description),
            start: self.start,
            end: self.end,
        }
    }
}

/// An event record in the shape the per-series files persist: the same
/// five fields, with the instants under their persisted names.
pub struct EventEntryV4 {
    pub name: Vec<u8>,
    pub location: Vec<u8>,
    pub description: Vec<u8>,
    pub start_time: ZonedDateTime,
    pub end_time: ZonedDateTime,
}

impl View for EventEntryV4 {
    type V = EventRec;

    open spec fn view(&self) -> EventRec {
        EventRec {
            name: self.name@,
            location: self.location@,
            description: self.description@,
            start: self.start_time,
            end: self.end_time,
        }
    }
}

impl EventEntryV4 {
    pub open spec fn wf(self) -> bool {
        self@.wf()
    }

    /// The persisted shape of an event record: the same value.
    pub fn from(value: EventEntry) -> (r: EventEntryV4)
        ensures
            r@ == value@,
    {
        EventEntryV4 {
            name: value.name,
            location: value.location,
            description: value.description,
            start_time: value.start,
            end_time: value.end,
        }
    }
}

/// A fresh byte vector with the same contents.
pub fn copy_bytes(v: &Vec<u8>) -> (r: Vec<u8>)
    ensures
        r@ == v@,
{
    let mut r: Vec<u8> = Vec::new();
    r.extend_from_slice(v.as_slice());
    proof {
        assert(r@ =~= v@);
    }
    r
}

/// The record values of a sequence of events.
pub open spec fn views(s: Seq<EventEntry>) -> Seq<EventRec> {
    s.map_values(|e: EventEntry| e@)
}

/// Every record of the sequence is well-formed.
pub open spec fn all_wf(evs: Seq<EventRec>) -> bool {
    forall|i: int| 0 <= i < evs.len() ==> (#[trigger] evs[i]).wf()
}

/// Whether every event of the list is well-formed; lets a caller establish
/// the pipeline's well-formedness assumption at run time.
pub fn events_wf(v: &Vec<EventEntry>) -> (r: bool)
    ensures
        r == all_wf(views(v@)),
{
    let mut i: usize = 0;
    while i < v.len()
        invariant
            i <= v@.len(),
            forall|j: int| 0 <= j < i ==> (#[trigger] views(v@)[j]).wf(),
        decreases v@.len() - i,
    {
        let e = &v[i];
        let ok = e.start.civil.check_valid() && e.end.civil.check_valid() && -86400
            < e.start.offset_seconds && e.start.offset_seconds < 86400 && e.start.offset_seconds
            % 60 == 0 && -86400 < e.end.offset_seconds && e.end.offset_seconds < 86400
            && e.end.offset_seconds % 60 == 0;
        if !ok {
            proof {
                assert(views(v@)[i as int] == v@[i as int]@);
            }
            return false;
        }
        proof {
            assert(views(v@)[i as int] == v@[i as int]@);
        }
        i = i + 1;
    }
    true
}

/// The canonical order on event records: by start, then end, then location,
/// then description, then name. Every tie is broken, so the order is total
/// and sorting under it is deterministic.
pub open spec fn spec_event_le(a: EventRec, b: EventRec) -> bool {
    if a.start != b.start {
        spec_zoned_le(a.start, b.start)
    } else if a.end != b.end {
        spec_zoned_le(a.end, b.end)
    } else if a.location != b.location {
        lex_le(a.location, b.location)
    } else if a.description != b.description {
        lex_le(a.description, b.description)
    } else {
        lex_le(a.name, b.name)
    }
}

/// The canonical order as a relation value, for the sorting lemmas.
pub open spec fn event_le_fn() -> spec_fn(EventRec, EventRec) -> bool {
    |a: EventRec, b: EventRec| spec_event_le(a, b)
}

pub fn event_le(a: &EventEntry, b: &EventEntry) -> (r: bool)
    ensures
        r == spec_event_le(a@, b@),
{
    if a.start != b.start {
        zoned_le(&a.start, &b.start)
    } else if a.end != b.end {
        zoned_le(&a.end, &b.end)
    } else if !bytes_eq(&a.location, &b.location) {
        bytes_le(a.location.as_slice(), b.location.as_slice())
    } else if !bytes_eq(&a.description, &b.description) {
        bytes_le(a.description.as_slice(), b.description.as_slice())
    } else {
        bytes_le(a.name.as_slice(), b.name.as_slice())
    }
}

/// Byte-string equality.
pub fn bytes_eq(a: &Vec<u8>, b: &Vec<u8>) -> (r: bool)
    ensures
        r == (a@ == b@),
{
    if a.len() != b.len() {
        return false;
    }
    let mut i: usize = 0;
    while i < a.len()
        invariant
            i <= a@.len() == b@.len(),
            forall|j: int| 0 <= j < i ==> a@[j] == b@[j],
        decreases a@.len() - i,
    {
        if a[i] != b[i] {
            return false;
        }
        i = i + 1;
    }
    proof {
        assert(a@ =~= b@);
    }
    true
}

/// Full-record equality: all five fields.
pub fn event_eq(a: &EventEntry, b: &EventEntry) -> (r: bool)
    ensures
        r == (a@ == b@),
{
    let r = a.start == b.start && a.end == b.end && bytes_eq(&a.name, &b.name) && bytes_eq(
        &a.location,
        &b.location,
    ) && bytes_eq(&a.description, &b.description);
    r
}

pub proof fn lemma_event_le_antisymmetric(a: EventRec, b: EventRec)
    requires
        spec_event_le(a, b),
        spec_event_le(b, a),
    ensures
        a == b,
{
    if a.start == b.start && a.end == b.end {
        if a.location != b.location {
            lemma_lex_le_antisymmetric(a.location, b.location);
        } else if a.description != b.description {
            lemma_lex_le_antisymmetric(a.description, b.description);
        } else {
            lemma_lex_le_antisymmetric(a.name, b.name);
        }
    }
}

pub proof fn lemma_event_le_transitive(a: EventRec, b: EventRec, c: EventRec)
    requires
        spec_event_le(a, b),
        spec_event_le(b, c),
    ensures
        spec_event_le(a, c),
{
    lemma_lex_le_transitive_hint(a.location, b.location, c.location);
    lemma_lex_le_transitive_hint(a.description, b.description, c.description);
    lemma_lex_le_transitive_hint(a.name, b.name, c.name);
    lemma_lex_le_antisymmetric_hint(a.location, b.location);
    lemma_lex_le_antisymmetric_hint(b.location, c.location);
    lemma_lex_le_antisymmetric_hint(a.location, c.location);
    lemma_lex_le_antisymmetric_hint(a.description, b.description);
    lemma_lex_le_antisymmetric_hint(b.description, c.description);
    lemma_lex_le_antisymmetric_hint(a.description, c.description);
    lemma_lex_le_antisymmetric_hint(a.name, b.name);
    lemma_lex_le_antisymmetric_hint(b.name, c.name);
    lemma_lex_le_antisymmetric_hint(a.name, c.name);
}

/// Antisymmetry in implication form, usable without knowing the hypotheses.
proof fn lemma_lex_le_antisymmetric_hint(a: Seq<u8>, b: Seq<u8>)
    ensures
        lex_le(a, b) && lex_le(b, a) ==> a == b,
{
    if lex_le(a, b) && lex_le(b, a) {
        lemma_lex_le_antisymmetric(a, b);
    }
}

/// Transitivity in implication form, usable without knowing the hypotheses.
proof fn lemma_lex_le_transitive_hint(a: Seq<u8>, b: Seq<u8>, c: Seq<u8>)
    ensures
        lex_le(a, b) && lex_le(b, c) ==> lex_le(a, c),
{
    if lex_le(a, b) && lex_le(b, c) {
        lemma_lex_le_transitive(a, b, c);
    }
}

/// The canonical order is a total ordering, so a sorted, duplicate-free
/// sequence of records is uniquely determined by its contents.
pub proof fn lemma_event_le_total_ordering()
    ensures
        total_ordering(event_le_fn()),
{
    let leq = event_le_fn();
    assert forall|a: EventRec| #[trigger] leq(a, a) by {
        lemma_lex_le_reflexive(a.name);
    }
    assert forall|a: EventRec, b: EventRec| #[trigger] leq(a, b) && #[trigger] leq(b, a)
        implies a == b by {
        lemma_event_le_antisymmetric(a, b);
    }
    assert forall|a: EventRec, b: EventRec, c: EventRec|
        #[trigger] leq(a, b) && #[trigger] leq(b, c) implies leq(a, c) by {
        lemma_event_le_transitive(a, b, c);
    }
    assert forall|a: EventRec, b: EventRec| #![trigger leq(a, b)] leq(a, b) || leq(b, a) by {
        if a.start == b.start && a.end == b.end {
            lemma_lex_le_total(a.location, b.location);
            lemma_lex_le_total(a.description, b.description);
            lemma_lex_le_total(a.name, b.name);
        }
    }
}

} // verus!
