//! Canonical ordering and deduplication of event records: sorting under the
//! total order and collapsing adjacent equal records, so that a group's
//! serialized form is determined by which records it contains and by
//! nothing else.

use vstd::prelude::*;
use vstd::relations::{sorted_by, total_ordering};
use vstd::seq_lib::{to_multiset_insert, to_multiset_remove, group_to_multiset_ensures};
use vstd::multiset::Multiset;
use crate::event_entry::{all_wf, bytes_eq, event_eq, event_le, event_le_fn,
    lemma_event_le_antisymmetric, lemma_event_le_total_ordering, views, EventEntry, EventRec};
use crate::text::{bytes_le, lemma_lex_le_antisymmetric, lemma_lex_le_reflexive,
    lemma_lex_le_total, lex_le, lex_lt};

verus! {

/// Sorts events into the canonical order. The contents (as a multiset of
/// record values) are unchanged; the result is sorted under the canonical
/// total order.
pub fn sort_events(v: &mut Vec<EventEntry>)
    ensures
        views(final (v)@).to_multiset() == views(old(v)@).to_multiset(),
        sorted_by(views(final (v)@), event_le_fn()),
{
    broadcast use group_to_multiset_ensures;
    broadcast use vstd::multiset::group_multiset_axioms;
    broadcast use to_multiset_insert;
    broadcast use to_multiset_remove;

    let ghost leq = event_le_fn();
    proof {
        lemma_event_le_total_ordering();
    }
    if v.len() <= 1 {
        proof {
            assert(views(v@).subrange(0, views(v@).len() as int) =~= views(v@));
        }
        return ;
    }
    let mut i: usize = 1;
    while i < v.len()
        invariant
            1 <= i <= v@.len(),
            leq == event_le_fn(),
            total_ordering(leq),
            views(v@).to_multiset() == views(old(v)@).to_multiset(),
            sorted_by(views(v@).subrange(0, i as int), leq),
        decreases v@.len() - i,
    {
        let ghost s = v@;
        let ghost xv = v@[i as int]@;
        let mut pos: usize = 0;
        while pos < i && event_le(&v[pos], &v[i])
            invariant
                pos <= i < v@.len(),
                v@ == s,
                forall|k: int| 0 <= k < pos ==> #[trigger] leq(views(s)[k], xv),
                leq == event_le_fn(),
                xv == s[i as int]@,
            decreases i - pos,
        {
            proof {
                assert(views(s)[pos as int] == s[pos as int]@);
            }
            pos = pos + 1;
        }
        proof {
            assert(pos < i ==> !leq(views(s)[pos as int], xv));
        }
        let x = v.remove(i);
        v.insert(pos, x);
        proof {
            broadcast use group_to_multiset_ensures;
            broadcast use vstd::multiset::group_multiset_axioms;

            let p = views(s);
            let t = views(v@);
            assert(views(s.remove(i as int)) =~= p.remove(i as int));
            assert(t =~= views(s.remove(i as int)).insert(pos as int, xv));
            assert(t =~= p.remove(i as int).insert(pos as int, xv));
            // contents unchanged
            assert(p.to_multiset().count(xv) > 0) by {
                assert(p[i as int] == xv);
                assert(p.contains(xv));
            }
            assert(p.remove(i as int).insert(pos as int, xv).to_multiset() =~= p.to_multiset());
            // the widened prefix is sorted
            let q = t.subrange(0, i as int + 1);
            let pre = p.subrange(0, i as int);
            assert(q =~= pre.subrange(0, pos as int) + seq![xv] + pre.subrange(
                pos as int,
                i as int,
            ));
            assert(forall|k: int| 0 <= k < i ==> pre[k] == #[trigger] views(s)[k]);
            assert forall|k: int| pos <= k < i implies leq(xv, #[trigger] views(s)[k]) by {
                if leq(views(s)[k], xv) {
                    if k > pos {
                        assert(leq(pre[pos as int], pre[k]));
                        assert(leq(views(s)[pos as int], xv));
                    }
                    assert(false);
                }
            }
            assert forall|a: int, b: int| 0 <= a < b < q.len() implies #[trigger] leq(
                q[a],
                q[b],
            ) by {
                assert(forall|k: int| 0 <= k < pos ==> leq(#[trigger] views(s)[k], xv));
            }
        }
        i = i + 1;
    }
    proof {
        assert(views(v@).subrange(0, i as int) =~= views(v@));
    }
}

/// What collapsing adjacent equal records leaves: each run of equal records
/// is kept once. On a sorted sequence this removes every duplicate.
pub open spec fn spec_dedup(s: Seq<EventRec>) -> Seq<EventRec>
    decreases s.len(),
{
    if s.len() <= 1 {
        s
    } else if s.last() == s[s.len() - 2] {
        spec_dedup(s.drop_last())
    } else {
        spec_dedup(s.drop_last()).push(s.last())
    }
}

/// The grouping key: the event name with every '/' replaced by '-', so that
/// the key can stand as a file stem.
pub open spec fn spec_sanitize_name(s: Seq<u8>) -> Seq<u8> {
    s.map_values(|b: u8| if b == 47 { 45u8 } else { b })
}

pub fn sanitize_name(s: &[u8]) -> (r: Vec<u8>)
    ensures
        r@ == spec_sanitize_name(s@),
{
    let mut r: Vec<u8> = Vec::new();
    proof {
        assert(r@ =~= spec_sanitize_name(s@.subrange(0, 0)));
    }
    let mut i: usize = 0;
    while i < s.len()
        invariant
            i <= s@.len(),
            r@ == spec_sanitize_name(s@.subrange(0, i as int)),
        decreases s@.len() - i,
    {
        let b: u8 = s[i];
        if b == 47 {
            r.push(45);
        } else {
            r.push(b);
        }
        proof {
            assert(r@ =~= spec_sanitize_name(s@.subrange(0, i as int + 1)));
        }
        i = i + 1;
    }
    proof {
        assert(s@.subrange(0, s@.len() as int) =~= s@);
    }
    r
}

/// Membership test for a series: whether some record's sanitized name is `k`.
pub open spec fn series_exists(evs: Seq<EventRec>, k: Seq<u8>) -> bool {
    exists|j: int|
        0 <= j < evs.len() && (#[trigger] spec_sanitize_name(evs[j].name)) == k
}

/// The predicate selecting the records of series `k`.
pub open spec fn key_pred(k: Seq<u8>) -> spec_fn(EventRec) -> bool {
    |e: EventRec| spec_sanitize_name(e.name) == k
}

/// The canonical form of series `k`: its records, in canonical order, with
/// exact duplicates removed.
pub open spec fn spec_series(evs: Seq<EventRec>, k: Seq<u8>) -> Seq<EventRec> {
    spec_dedup(evs.filter(key_pred(k)).sort_by(event_le_fn()))
}

/// One series: the grouping key and the records belonging to it.
pub struct EventGroup {
    pub key: Vec<u8>,
    pub events: Vec<EventEntry>,
}

/// Whether some group carries the key `k`.
pub open spec fn has_key(gs: Seq<EventGroup>, k: Seq<u8>) -> bool {
    exists|j: int| 0 <= j < gs.len() && (#[trigger] gs[j].key@) == k
}

/// Group keys strictly ascend, so each key occurs once and the group order
/// is canonical.
pub open spec fn keys_sorted(gs: Seq<EventGroup>) -> bool {
    forall|a: int, b: int|
        0 <= a < b < gs.len() ==> lex_lt(#[trigger] gs[a].key@, #[trigger] gs[b].key@)
}

/// The groups carry exactly the keys of the series present in `evs`.
pub open spec fn groups_complete(gs: Seq<EventGroup>, evs: Seq<EventRec>) -> bool {
    forall|k: Seq<u8>|
        #![trigger has_key(gs, k)]
        #![trigger series_exists(evs, k)]
        has_key(gs, k) <==> series_exists(evs, k)
}

/// Each group holds, in input order, exactly the records of its series.
pub open spec fn groups_are_filters(gs: Seq<EventGroup>, evs: Seq<EventRec>) -> bool {
    forall|j: int|
        0 <= j < gs.len() ==> views((#[trigger] gs[j]).events@) == evs.filter(
            key_pred(gs[j].key@),
        )
}

/// Splits the input into one group per sanitized name, each group holding
/// its records in input order, the groups ordered by key.
fn partition_by_key(all: &Vec<EventEntry>) -> (r: Vec<EventGroup>)
    ensures
        keys_sorted(r@),
        groups_complete(r@, views(all@)),
        groups_are_filters(r@, views(all@)),
{
    let ghost evs = views(all@);
    let mut groups: Vec<EventGroup> = Vec::new();
    let mut i: usize = 0;
    while i < all.len()
        invariant
            i <= all@.len(),
            evs == views(all@),
            evs.len() == all@.len(),
            keys_sorted(groups@),
            groups_complete(groups@, evs.subrange(0, i as int)),
            groups_are_filters(groups@, evs.subrange(0, i as int)),
        decreases all@.len() - i,
    {
        let ghost gsnap = groups@;
        let ghost p = evs.subrange(0, i as int);
        let ghost pnew = evs.subrange(0, i as int + 1);
        let ghost ev = evs[i as int];
        proof {
            assert(pnew =~= p.push(ev));
            assert(ev == all@[i as int]@);
        }
        let key = sanitize_name(all[i].name.as_slice());
        let ghost kv = key@;
        let mut pos: usize = 0;
        while pos < groups.len() && !bytes_le(key.as_slice(), groups[pos].key.as_slice())
            invariant
                pos <= groups@.len(),
                groups@ == gsnap,
                key@ == kv,
                forall|j: int| 0 <= j < pos ==> !lex_le(kv, (#[trigger] gsnap[j].key@)),
            decreases groups@.len() - pos,
        {
            pos = pos + 1;
        }
        // everything before pos is strictly below the key
        proof {
            assert forall|j: int| 0 <= j < pos implies lex_lt(#[trigger] gsnap[j].key@, kv) by {
                lemma_lex_le_total(kv, gsnap[j].key@);
                lemma_lex_le_reflexive(kv);
            }
        }
        let found: bool = pos < groups.len() && bytes_eq(&key, &groups[pos].key);
        if found {
            let dup = all[i].duplicate();
            groups[pos].events.push(dup);
            proof {
                broadcast use vstd::seq_lib::group_filter_ensures;

                let gnew = groups@;
                assert(gnew =~= gsnap.update(pos as int, gnew[pos as int]));
                assert(gnew[pos as int].key@ == kv);
                assert(views(gnew[pos as int].events@) =~= views(gsnap[pos as int].events@).push(
                    ev,
                ));
                // keys are unchanged, so order and completeness carry over
                assert(forall|j: int|
                    0 <= j < gnew.len() ==> (#[trigger] gnew[j].key@) == gsnap[j].key@);
                assert(keys_sorted(gnew));
                // every key other than kv selects the same records as before
                assert forall|j: int| 0 <= j < gnew.len() implies views(
                    (#[trigger] gnew[j]).events@,
                ) == pnew.filter(key_pred(gnew[j].key@)) by {
                    let kj = gnew[j].key@;
                    let pr = key_pred(kj);
                    p.lemma_filter_push(ev, pr);
                    if j != pos {
                        assert(kj != kv);
                        assert(!pr(ev));
                        assert(gnew[j] == gsnap[j]);
                    } else {
                        assert(pr(ev));
                    }
                }
                assert forall|k: Seq<u8>| has_key(gnew, k) <==> series_exists(pnew, k) by {
                    assert(forall|j: int|
                        0 <= j < p.len() ==> (#[trigger] pnew[j]) == p[j]);
                    if has_key(gnew, k) {
                        let j0 = choose|j: int|
                            0 <= j < gnew.len() && (#[trigger] gnew[j].key@) == k;
                        assert(gsnap[j0].key@ == k);
                        assert(has_key(gsnap, k));
                        assert(series_exists(p, k));
                        let j1 = choose|j: int|
                            0 <= j < p.len() && (#[trigger] spec_sanitize_name(p[j].name)) == k;
                        assert(spec_sanitize_name(pnew[j1].name) == k);
                        assert(series_exists(pnew, k));
                    }
                    if series_exists(pnew, k) {
                        let j1 = choose|j: int|
                            0 <= j < pnew.len() && (#[trigger] spec_sanitize_name(pnew[j].name))
                                == k;
                        if j1 < p.len() {
                            assert(spec_sanitize_name(p[j1].name) == k);
                            assert(series_exists(p, k));
                            assert(has_key(gsnap, k));
                            let j0 = choose|j: int|
                                0 <= j < gsnap.len() && (#[trigger] gsnap[j].key@) == k;
                            assert(gnew[j0].key@ == k);
                            assert(has_key(gnew, k));
                        } else {
                            assert(pnew[j1] == ev);
                            assert(k == kv);
                            assert(gnew[pos as int].key@ == k);
                            assert(has_key(gnew, k));
                        }
                    }
                }
            }
        } else {
            let mut evs_new: Vec<EventEntry> = Vec::new();
            evs_new.push(all[i].duplicate());
            let g = EventGroup { key, events: evs_new };
            groups.insert(pos, g);
            proof {
                broadcast use vstd::seq_lib::group_filter_ensures;

                let gnew = groups@;
                assert(gnew =~= gsnap.insert(pos as int, gnew[pos as int]));
                assert(gnew[pos as int].key@ == kv);
                assert(views(gnew[pos as int].events@) =~= Seq::<EventRec>::empty().push(ev));
                assert(forall|j: int| 0 <= j < pos ==> (#[trigger] gnew[j]) == gsnap[j]);
                assert(forall|j: int|
                    pos < j < gnew.len() ==> (#[trigger] gnew[j]) == gsnap[j - 1]);
                // kv is new: no old group carries it
                assert forall|j: int| 0 <= j < gsnap.len() implies (#[trigger] gsnap[j].key@)
                    != kv by {
                    if j < pos {
                        lemma_lex_le_reflexive(kv);
                    } else if pos < gsnap.len() {
                        if gsnap[j].key@ == kv {
                            assert(lex_le(kv, gsnap[pos as int].key@));
                            if j > pos {
                                assert(lex_lt(gsnap[pos as int].key@, gsnap[j].key@));
                                lemma_lex_le_antisymmetric(kv, gsnap[pos as int].key@);
                            }
                            assert(false);
                        }
                    }
                }
                assert(!has_key(gsnap, kv));
                assert(!series_exists(p, kv));
                // so the series filter over the prefix is empty
                let pr = key_pred(kv);
                assert(p.filter(pr) =~= Seq::<EventRec>::empty()) by {
                    if p.filter(pr).len() > 0 {
                        let x = p.filter(pr)[0];
                        assert(pr(x));
                        assert(p.filter(pr).contains(x));
                        p.lemma_filter_contains_rev(pr, x);
                        assert(p.contains(x));
                        let j1 = choose|j: int| 0 <= j < p.len() && p[j] == x;
                        assert(spec_sanitize_name(p[j1].name) == kv);
                        assert(false);
                    }
                }
                // order: strictly below kv before pos, strictly above after
                if pos < gsnap.len() {
                    assert(lex_lt(kv, gsnap[pos as int].key@));
                }
                assert forall|a: int, b: int| 0 <= a < b < gnew.len() implies lex_lt(
                    #[trigger] gnew[a].key@,
                    #[trigger] gnew[b].key@,
                ) by {
                    if a == pos && b > pos + 1 {
                        assert(lex_lt(gsnap[pos as int].key@, gsnap[b - 1].key@));
                        crate::text::lemma_lex_lt_transitive(
                            kv,
                            gsnap[pos as int].key@,
                            gsnap[b - 1].key@,
                        );
                    }
                }
                assert forall|j: int| 0 <= j < gnew.len() implies views(
                    (#[trigger] gnew[j]).events@,
                ) == pnew.filter(key_pred(gnew[j].key@)) by {
                    let kj = gnew[j].key@;
                    let pr2 = key_pred(kj);
                    p.lemma_filter_push(ev, pr2);
                    if j == pos {
                        assert(pr2(ev));
                        assert(views(gnew[j].events@) =~= p.filter(pr2).push(ev));
                    } else {
                        assert(kj != kv);
                        assert(!pr2(ev));
                    }
                }
                assert forall|k: Seq<u8>| has_key(gnew, k) <==> series_exists(pnew, k) by {
                    assert(forall|j: int|
                        0 <= j < p.len() ==> (#[trigger] pnew[j]) == p[j]);
                    if has_key(gnew, k) {
                        let j0 = choose|j: int|
                            0 <= j < gnew.len() && (#[trigger] gnew[j].key@) == k;
                        if j0 == pos {
                            assert(pnew[p.len() as int] == ev);
                            assert(spec_sanitize_name(pnew[p.len() as int].name) == kv);
                            assert(series_exists(pnew, k));
                        } else {
                            assert(has_key(gsnap, k));
                            assert(series_exists(p, k));
                            let j1 = choose|j: int|
                                0 <= j < p.len() && (#[trigger] spec_sanitize_name(p[j].name))
                                    == k;
                            assert(spec_sanitize_name(pnew[j1].name) == k);
                            assert(series_exists(pnew, k));
                        }
                    }
                    if series_exists(pnew, k) {
                        let j1 = choose|j: int|
                            0 <= j < pnew.len() && (#[trigger] spec_sanitize_name(pnew[j].name))
                                == k;
                        if j1 < p.len() {
                            assert(spec_sanitize_name(p[j1].name) == k);
                            assert(series_exists(p, k));
                            assert(has_key(gsnap, k));
                            let j0 = choose|j: int|
                                0 <= j < gsnap.len() && (#[trigger] gsnap[j].key@) == k;
                            if j0 < pos {
                                assert(gnew[j0].key@ == k);
                            } else {
                                assert(gnew[j0 + 1].key@ == k);
                            }
                            assert(has_key(gnew, k));
                        } else {
                            assert(pnew[j1] == ev);
                            assert(k == kv);
                            assert(gnew[pos as int].key@ == k);
                            assert(has_key(gnew, k));
                        }
                    }
                }
            }
        }
        i = i + 1;
    }
    proof {
        assert(evs.subrange(0, i as int) =~= evs);
    }
    groups
}

/// Collapses immediately-adjacent fully-equal records into one.
pub fn dedup_events(v: &Vec<EventEntry>) -> (r: Vec<EventEntry>)
    ensures
        views(r@) == spec_dedup(views(v@)),
{
    let mut r: Vec<EventEntry> = Vec::new();
    if v.len() == 0 {
        proof {
            assert(views(r@) =~= spec_dedup(views(v@)));
        }
        return r;
    }
    r.push(v[0].duplicate());
    proof {
        assert(views(r@) =~= views(v@.subrange(0, 1)));
        assert(views(v@.subrange(0, 1)) =~= spec_dedup(views(v@.subrange(0, 1))));
    }
    let mut i: usize = 1;
    while i < v.len()
        invariant
            1 <= i <= v@.len(),
            views(r@) == spec_dedup(views(v@.subrange(0, i as int))),
        decreases v@.len() - i,
    {
        let ghost p = views(v@.subrange(0, i as int));
        let ghost q = views(v@.subrange(0, i as int + 1));
        proof {
            assert(q.drop_last() =~= p);
            assert(q.last() == v@[i as int]@);
            assert(q[q.len() - 2] == v@[i as int - 1]@);
        }
        if !event_eq(&v[i], &v[i - 1]) {
            r.push(v[i].duplicate());
            proof {
                assert(views(r@) =~= spec_dedup(p).push(v@[i as int]@));
            }
        }
        i = i + 1;
    }
    proof {
        assert(views(v@.subrange(0, i as int)) =~= views(v@));
    }
    r
}

/// Collapsing adjacent equals invents no record.
pub proof fn lemma_dedup_subset(s: Seq<EventRec>, x: EventRec)
    requires
        spec_dedup(s).contains(x),
    ensures
        s.contains(x),
    decreases s.len(),
{
    if s.len() > 1 {
        if s.last() == s[s.len() - 2] {
            lemma_dedup_subset(s.drop_last(), x);
            let i = choose|i: int| 0 <= i < s.drop_last().len() && s.drop_last()[i] == x;
            assert(s[i] == x);
        } else {
            let d = spec_dedup(s.drop_last()).push(x);
            if x == spec_dedup(s).last() && x == s.last() {
                assert(s[s.len() - 1] == x);
            } else {
                let i = choose|i: int|
                    0 <= i < spec_dedup(s).len() && spec_dedup(s)[i] == x;
                if i < spec_dedup(s).len() - 1 {
                    assert(spec_dedup(s.drop_last()).contains(x)) by {
                        assert(spec_dedup(s.drop_last())[i] == x);
                    }
                    lemma_dedup_subset(s.drop_last(), x);
                    let j = choose|j: int|
                        0 <= j < s.drop_last().len() && s.drop_last()[j] == x;
                    assert(s[j] == x);
                } else {
                    assert(s[s.len() - 1] == x);
                }
            }
        }
    }
}

/// A record of a canonical series came from the input, and its sanitized
/// name is the series key.
pub proof fn lemma_series_element_of(evs: Seq<EventRec>, k: Seq<u8>, x: EventRec)
    requires
        spec_series(evs, k).contains(x),
    ensures
        evs.contains(x),
        spec_sanitize_name(x.name) == k,
{
    broadcast use group_to_multiset_ensures;

    let leq = event_le_fn();
    let fl = evs.filter(key_pred(k));
    lemma_event_le_total_ordering();
    fl.lemma_sort_by_ensures(leq);
    lemma_dedup_subset(fl.sort_by(leq), x);
    assert(fl.sort_by(leq).to_multiset().count(x) > 0);
    assert(fl.to_multiset().count(x) > 0);
    assert(fl.contains(x));
    let i = choose|i: int| 0 <= i < fl.len() && fl[i] == x;
    evs.lemma_filter_pred(key_pred(k), i);
    evs.lemma_filter_contains_rev(key_pred(k), x);
}

/// Canonical series of well-formed input hold well-formed records.
pub proof fn lemma_series_wf(evs: Seq<EventRec>, k: Seq<u8>)
    requires
        all_wf(evs),
    ensures
        all_wf(spec_series(evs, k)),
{
    let s = spec_series(evs, k);
    assert forall|i: int| 0 <= i < s.len() implies (#[trigger] s[i]).wf() by {
        assert(s.contains(s[i]));
        lemma_series_element_of(evs, k, s[i]);
        let j = choose|j: int| 0 <= j < evs.len() && evs[j] == s[i];
        assert(evs[j].wf());
    }
}

/// Collapsing adjacent equals preserves the canonical order.
pub proof fn lemma_dedup_sorted(s: Seq<EventRec>)
    requires
        sorted_by(s, event_le_fn()),
    ensures
        sorted_by(spec_dedup(s), event_le_fn()),
    decreases s.len(),
{
    let leq = event_le_fn();
    if s.len() > 1 {
        assert(sorted_by(s.drop_last(), leq)) by {
            assert forall|a: int, b: int| 0 <= a < b < s.len() - 1 implies #[trigger] leq(
                s.drop_last()[a],
                s.drop_last()[b],
            ) by {
                assert(s.drop_last()[a] == s[a] && s.drop_last()[b] == s[b]);
                assert(leq(s[a], s[b]));
            }
        }
        lemma_dedup_sorted(s.drop_last());
        if s.last() != s[s.len() - 2] {
            let d = spec_dedup(s.drop_last());
            let r = d.push(s.last());
            assert forall|a: int, b: int| 0 <= a < b < r.len() implies #[trigger] leq(
                r[a],
                r[b],
            ) by {
                if b == r.len() - 1 {
                    assert(d.contains(d[a]));
                    lemma_dedup_subset(s.drop_last(), d[a]);
                    let i = choose|i: int|
                        0 <= i < s.drop_last().len() && s.drop_last()[i] == d[a];
                    assert(leq(s[i], s[s.len() - 1]));
                }
            }
        }
    }
}

/// On a sorted sequence, collapsing adjacent equals removes every
/// duplicate: no two records of the result are equal.
pub proof fn lemma_dedup_distinct(s: Seq<EventRec>)
    requires
        sorted_by(s, event_le_fn()),
    ensures
        forall|a: int, b: int|
            0 <= a < b < spec_dedup(s).len() ==> #[trigger] spec_dedup(s)[a] != #[trigger] spec_dedup(s)[b],
    decreases s.len(),
{
    let leq = event_le_fn();
    if s.len() > 1 {
        assert(sorted_by(s.drop_last(), leq)) by {
            assert forall|a: int, b: int| 0 <= a < b < s.len() - 1 implies #[trigger] leq(
                s.drop_last()[a],
                s.drop_last()[b],
            ) by {
                assert(s.drop_last()[a] == s[a] && s.drop_last()[b] == s[b]);
                assert(leq(s[a], s[b]));
            }
        }
        lemma_dedup_distinct(s.drop_last());
        if s.last() != s[s.len() - 2] {
            let d = spec_dedup(s.drop_last());
            let r = d.push(s.last());
            assert forall|a: int, b: int| 0 <= a < b < r.len() implies #[trigger] r[a]
                != #[trigger] r[b] by {
                if b == r.len() - 1 && r[a] == r[b] {
                    assert(d.contains(d[a]));
                    lemma_dedup_subset(s.drop_last(), d[a]);
                    let i = choose|i: int|
                        0 <= i < s.drop_last().len() && s.drop_last()[i] == d[a];
                    assert(s[i] == s.last());
                    if i < s.len() - 2 {
                        assert(leq(s[i], s[s.len() - 2]));
                        assert(leq(s[s.len() - 2], s[s.len() - 1]));
                        lemma_event_le_antisymmetric(s[s.len() - 2], s[s.len() - 1]);
                    }
                    assert(false);
                }
            }
        }
    }
}

/// The canonical series is sorted: entries appear in non-decreasing start
/// order, ties broken by end, location, description and name.
pub proof fn lemma_series_sorted(evs: Seq<EventRec>, k: Seq<u8>)
    ensures
        sorted_by(spec_series(evs, k), event_le_fn()),
{
    let leq = event_le_fn();
    let fl = evs.filter(key_pred(k));
    lemma_event_le_total_ordering();
    fl.lemma_sort_by_ensures(leq);
    lemma_dedup_sorted(fl.sort_by(leq));
}

/// Deduplication: no two entries of a canonical series are fully equal; a
/// record occurring several times across the input collapses to one entry.
pub proof fn lemma_series_distinct(evs: Seq<EventRec>, k: Seq<u8>)
    ensures
        forall|a: int, b: int|
            0 <= a < b < spec_series(evs, k).len() ==> #[trigger] spec_series(evs, k)[a]
                != #[trigger] spec_series(evs, k)[b],
{
    let leq = event_le_fn();
    let fl = evs.filter(key_pred(k));
    lemma_event_le_total_ordering();
    fl.lemma_sort_by_ensures(leq);
    lemma_dedup_distinct(fl.sort_by(leq));
}

/// Filtering is determined by the contents: sequences with equal record
/// multisets have equal filter multisets.
pub proof fn lemma_filter_multiset(
    s1: Seq<EventRec>,
    s2: Seq<EventRec>,
    p: spec_fn(EventRec) -> bool,
)
    requires
        s1.to_multiset() == s2.to_multiset(),
    ensures
        s1.filter(p).to_multiset() == s2.filter(p).to_multiset(),
    decreases s1.len(),
{
    broadcast use group_to_multiset_ensures;
    broadcast use vstd::multiset::group_multiset_axioms;
    broadcast use vstd::seq_lib::lemma_multiset_commutative;

    if s1.len() == 0 {
        assert(s1.to_multiset().len() == 0);
        assert(s2.to_multiset().len() == 0);
        s1.lemma_filter_len(p);
        s2.lemma_filter_len(p);
        assert(s1.filter(p) =~= s2.filter(p));
    } else {
        let x = s1.last();
        let rest = s1.drop_last();
        assert(s1 =~= rest.push(x));
        assert(s1.to_multiset() == rest.push(x).to_multiset());
        assert(rest.push(x).to_multiset() =~= rest.to_multiset().insert(x));
        assert(s2.to_multiset().count(x) > 0) by {
            assert(s1.contains(x));
        }
        assert(s2.contains(x));
        let j = choose|j: int| 0 <= j < s2.len() && s2[j] == x;
        let a = s2.subrange(0, j);
        let b = s2.subrange(j + 1, s2.len() as int);
        assert(s2 =~= (a + seq![x]) + b);
        assert(seq![x] =~= Seq::<EventRec>::empty().push(x));
        assert(seq![x].to_multiset() =~= Multiset::<EventRec>::empty().insert(x));
        assert(((a + seq![x]) + b).to_multiset() =~= (a + b).to_multiset().insert(x)) by {
            assert(((a + seq![x]) + b).to_multiset() == (a + seq![x]).to_multiset().add(
                b.to_multiset(),
            ));
            assert((a + seq![x]).to_multiset() == a.to_multiset().add(seq![x].to_multiset()));
            assert((a + b).to_multiset() == a.to_multiset().add(b.to_multiset()));
        }
        assert(rest.to_multiset() =~= (a + b).to_multiset()) by {
            assert(rest.to_multiset().insert(x) =~= (a + b).to_multiset().insert(x));
            assert forall|y: EventRec| #[trigger] rest.to_multiset().count(y) == (a
                + b).to_multiset().count(y) by {
                assert(rest.to_multiset().insert(x).count(y) == (a
                    + b).to_multiset().insert(x).count(y));
            }
        }
        lemma_filter_multiset(rest, a + b, p);
        rest.lemma_filter_push(x, p);
        assert(s1.filter(p) == rest.push(x).filter(p));
        assert(s2.filter(p) == ((a + seq![x]) + b).filter(p));
        Seq::<EventRec>::filter_distributes_over_add(a + seq![x], b, p);
        Seq::<EventRec>::filter_distributes_over_add(a, seq![x], p);
        Seq::<EventRec>::filter_distributes_over_add(a, b, p);
        Seq::<EventRec>::empty().lemma_filter_push(x, p);
        Seq::<EventRec>::empty().lemma_filter_len(p);
        assert(Seq::<EventRec>::empty().filter(p) =~= Seq::<EventRec>::empty());
        if p(x) {
            assert(seq![x].filter(p) =~= Seq::<EventRec>::empty().push(x));
            assert(s2.filter(p).to_multiset() =~= ((a + b).filter(p)).to_multiset().insert(x))
                by {
                assert(s2.filter(p) == (a.filter(p) + seq![x].filter(p)) + b.filter(p));
                assert((a + b).filter(p) == a.filter(p) + b.filter(p));
            }
            assert(s1.filter(p).to_multiset() =~= rest.filter(p).to_multiset().insert(x));
            assert(s1.filter(p).to_multiset() =~= s2.filter(p).to_multiset());
        } else {
            assert(seq![x].filter(p) =~= Seq::<EventRec>::empty());
            assert(s2.filter(p).to_multiset() =~= ((a + b).filter(p)).to_multiset()) by {
                assert(s2.filter(p) == (a.filter(p) + seq![x].filter(p)) + b.filter(p));
                assert(a.filter(p) + seq![x].filter(p) =~= a.filter(p));
                assert((a + b).filter(p) == a.filter(p) + b.filter(p));
            }
            assert(s1.filter(p) == rest.filter(p));
            assert(s1.filter(p).to_multiset() =~= s2.filter(p).to_multiset());
        }
    }
}

/// Determinism: whatever order the input records arrive in, each series'
/// canonical sequence — and with it the series' file content — is the
/// same, and the same series exist. Inputs that are permutations of one
/// another have equal record multisets.
pub proof fn lemma_series_determined(e1: Seq<EventRec>, e2: Seq<EventRec>, k: Seq<u8>)
    requires
        e1.to_multiset() == e2.to_multiset(),
    ensures
        spec_series(e1, k) == spec_series(e2, k),
        series_exists(e1, k) == series_exists(e2, k),
{
    broadcast use group_to_multiset_ensures;

    let leq = event_le_fn();
    let p = key_pred(k);
    lemma_event_le_total_ordering();
    lemma_filter_multiset(e1, e2, p);
    e1.filter(p).lemma_sort_by_ensures(leq);
    e2.filter(p).lemma_sort_by_ensures(leq);
    vstd::seq_lib::lemma_sorted_unique(e1.filter(p).sort_by(leq), e2.filter(p).sort_by(leq), leq);
    assert(e1.filter(p).sort_by(leq) == e2.filter(p).sort_by(leq));
    lemma_series_exists_iff_filter(e1, k);
    lemma_series_exists_iff_filter(e2, k);
    assert(e1.filter(p).to_multiset().len() == e2.filter(p).to_multiset().len());
}

/// A series is present exactly when its filter selects something.
pub proof fn lemma_series_exists_iff_filter(evs: Seq<EventRec>, k: Seq<u8>)
    ensures
        series_exists(evs, k) <==> evs.filter(key_pred(k)).len() > 0,
{
    broadcast use vstd::seq_lib::group_filter_ensures;

    let p = key_pred(k);
    if series_exists(evs, k) {
        let j = choose|j: int|
            0 <= j < evs.len() && (#[trigger] spec_sanitize_name(evs[j].name)) == k;
        assert(p(evs[j]));
        evs.lemma_filter_contains(p, j);
        assert(evs.filter(p).contains(evs[j]));
    }
    if evs.filter(p).len() > 0 {
        let x = evs.filter(p)[0];
        evs.lemma_filter_pred(p, 0);
        assert(evs.filter(p).contains(x));
        evs.lemma_filter_contains_rev(p, x);
        let j = choose|j: int| 0 <= j < evs.len() && evs[j] == x;
        assert(spec_sanitize_name(evs[j].name) == k);
    }
}

/// Collapsing adjacent equals keeps at least one record.
pub proof fn lemma_dedup_nonempty(s: Seq<EventRec>)
    requires
        s.len() > 0,
    ensures
        spec_dedup(s).len() > 0,
    decreases s.len(),
{
    if s.len() > 1 && s.last() == s[s.len() - 2] {
        lemma_dedup_nonempty(s.drop_last());
    }
}

/// Groups the records by sanitized name. The groups are ordered by strictly
/// ascending key; there is a group exactly for each series present in the
/// input; and each group holds the canonical (sorted, duplicate-free)
/// sequence of its series' records. Together these pin the result down as a
/// function of the input records.
pub fn get_grouped(all: &Vec<EventEntry>) -> (r: Vec<EventGroup>)
    ensures
        keys_sorted(r@),
        groups_complete(r@, views(all@)),
        forall|j: int|
            0 <= j < r@.len() ==> views((#[trigger] r@[j]).events@) == spec_series(
                views(all@),
                r@[j].key@,
            ),
        forall|j: int| 0 <= j < r@.len() ==> (#[trigger] r@[j]).events@.len() > 0,
        all_wf(views(all@)) ==> forall|j: int|
            0 <= j < r@.len() ==> all_wf(views((#[trigger] r@[j]).events@)),
{
    let ghost evs = views(all@);
    let mut groups = partition_by_key(all);
    let ghost g0 = groups@;
    let mut gi: usize = 0;
    while gi < groups.len()
        invariant
            gi <= groups@.len(),
            groups@.len() == g0.len(),
            evs == views(all@),
            keys_sorted(g0),
            groups_complete(g0, evs),
            forall|j: int| 0 <= j < groups@.len() ==> (#[trigger] groups@[j].key@) == g0[j].key@,
            forall|j: int|
                gi <= j < groups@.len() ==> views((#[trigger] groups@[j]).events@) == evs.filter(
                    key_pred(groups@[j].key@),
                ),
            forall|j: int|
                0 <= j < gi ==> views((#[trigger] groups@[j]).events@) == spec_series(
                    evs,
                    groups@[j].key@,
                ),
            forall|j: int| 0 <= j < gi ==> (#[trigger] groups@[j]).events@.len() > 0,
        decreases groups@.len() - gi,
    {
        broadcast use group_to_multiset_ensures;

        let ghost gsnap = groups@;
        let ghost kj = groups@[gi as int].key@;
        let mut g = groups.remove(gi);
        proof {
            assert(views(g.events@) == evs.filter(key_pred(kj)));
        }
        sort_events(&mut g.events);
        let dd = dedup_events(&g.events);
        let newg = EventGroup { key: g.key, events: dd };
        groups.insert(gi, newg);
        proof {
            lemma_event_le_total_ordering();
            let leq = event_le_fn();
            let fl = evs.filter(key_pred(kj));
            fl.lemma_sort_by_ensures(leq);
            vstd::seq_lib::lemma_sorted_unique(views(g.events@), fl.sort_by(leq), leq);
            assert(views(g.events@) == fl.sort_by(leq));
            assert(groups@[gi as int].key@ == kj);
            assert(views(groups@[gi as int].events@) == spec_series(evs, kj));
            // the group is not empty: its series is present in the input
            assert(has_key(g0, kj)) by {
                assert(g0[gi as int].key@ == kj);
            }
            assert(series_exists(evs, kj));
            let j1 = choose|j: int|
                0 <= j < evs.len() && (#[trigger] spec_sanitize_name(evs[j].name)) == kj;
            assert(key_pred(kj)(evs[j1]));
            evs.lemma_filter_contains(key_pred(kj), j1);
            assert(fl.len() > 0);
            assert(fl.sort_by(leq).to_multiset().len() == fl.to_multiset().len());
            assert(fl.sort_by(leq).len() == fl.len());
            lemma_dedup_nonempty(fl.sort_by(leq));
            // the other groups are untouched
            assert(groups@ =~= gsnap.update(gi as int, groups@[gi as int]));
        }
        gi = gi + 1;
    }
    proof {
        assert forall|k: Seq<u8>| has_key(groups@, k) <==> series_exists(evs, k) by {
            if has_key(groups@, k) {
                let j0 = choose|j: int|
                    0 <= j < groups@.len() && (#[trigger] groups@[j].key@) == k;
                assert(g0[j0].key@ == k);
                assert(has_key(g0, k));
            }
            if series_exists(evs, k) {
                assert(has_key(g0, k));
                let j0 = choose|j: int| 0 <= j < g0.len() && (#[trigger] g0[j].key@) == k;
                assert(groups@[j0].key@ == k);
                assert(has_key(groups@, k));
            }
        }
        if all_wf(evs) {
            assert forall|j: int| 0 <= j < groups@.len() implies all_wf(
                views((#[trigger] groups@[j]).events@),
            ) by {
                lemma_series_wf(evs, groups@[j].key@);
            }
        }
    }
    groups
}

} // verus!
