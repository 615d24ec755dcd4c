//! The run's snapshot and the persistence plan: what each series file must
//! contain, what the index must list, and — against a listing of what is
//! already persisted — which files to write, which to delete, and whether
//! the index changed. Only differences are written, so an unchanged run
//! writes nothing.

use vstd::prelude::*;
use vstd::relations::{sorted_by, total_ordering};
use vstd::seq_lib::group_to_multiset_ensures;
use crate::event_entry::{all_wf, bytes_eq, copy_bytes, views};
use crate::grouping::EventGroup;
use crate::json::{render_index, render_series, spec_index, spec_series_json};
use crate::text::{bytes_le, lemma_lex_le_total_ordering, lex_le_fn};

verus! {

/// One file of the output directory: its stem and its exact content.
pub struct SeriesFile {
    pub stem: Vec<u8>,
    pub content: Vec<u8>,
}

/// The mathematical value of a file: stem and content.
pub struct FileRec {
    pub stem: Seq<u8>,
    pub content: Seq<u8>,
}

impl View for SeriesFile {
    type V = FileRec;

    open spec fn view(&self) -> FileRec {
        FileRec { stem: self.stem@, content: self.content@ }
    }
}

pub open spec fn file_views(fs: Seq<SeriesFile>) -> Seq<FileRec> {
    fs.map_values(|f: SeriesFile| f@)
}

pub open spec fn name_views(ns: Seq<Vec<u8>>) -> Seq<Seq<u8>> {
    ns.map_values(|n: Vec<u8>| n@)
}

/// The key of each group: the sanitized series name the index lists.
pub open spec fn group_keys(gs: Seq<EventGroup>) -> Seq<Seq<u8>> {
    gs.map_values(|g: EventGroup| g.key@)
}

/// What one run wants persisted: one file per series and the index.
pub struct Snapshot {
    pub files: Vec<SeriesFile>,
    pub index: Vec<u8>,
}

/// Sorts a list of names lexicographically; the contents are unchanged.
fn sort_names(v: &mut Vec<Vec<u8>>)
    ensures
        name_views(final (v)@).to_multiset() == name_views(old(v)@).to_multiset(),
        sorted_by(name_views(final (v)@), lex_le_fn()),
{
    let ghost leq = lex_le_fn();
    proof {
        lemma_lex_le_total_ordering();
    }
    if v.len() <= 1 {
        proof {
            assert(name_views(v@).subrange(0, name_views(v@).len() as int) =~= name_views(v@));
        }
        return ;
    }
    let mut i: usize = 1;
    while i < v.len()
        invariant
            1 <= i <= v@.len(),
            leq == lex_le_fn(),
            total_ordering(leq),
            name_views(v@).to_multiset() == name_views(old(v)@).to_multiset(),
            sorted_by(name_views(v@).subrange(0, i as int), leq),
        decreases v@.len() - i,
    {
        let ghost s = v@;
        let ghost xv = v@[i as int]@;
        let mut pos: usize = 0;
        while pos < i && bytes_le(v[pos].as_slice(), v[i].as_slice())
            invariant
                pos <= i < v@.len(),
                v@ == s,
                forall|k: int| 0 <= k < pos ==> #[trigger] leq(name_views(s)[k], xv),
                leq == lex_le_fn(),
                xv == s[i as int]@,
            decreases i - pos,
        {
            proof {
                assert(name_views(s)[pos as int] == s[pos as int]@);
            }
            pos = pos + 1;
        }
        proof {
            assert(pos < i ==> !leq(name_views(s)[pos as int], xv));
        }
        let x = v.remove(i);
        v.insert(pos, x);
        proof {
            broadcast use group_to_multiset_ensures;
            broadcast use vstd::multiset::group_multiset_axioms;

            let p = name_views(s);
            let t = name_views(v@);
            assert(name_views(s.remove(i as int)) =~= p.remove(i as int));
            assert(t =~= p.remove(i as int).insert(pos as int, xv));
            assert(p.to_multiset().count(xv) > 0) by {
                assert(p[i as int] == xv);
                assert(p.contains(xv));
            }
            assert(p.remove(i as int).insert(pos as int, xv).to_multiset() =~= p.to_multiset());
            let q = t.subrange(0, i as int + 1);
            let pre = p.subrange(0, i as int);
            assert(q =~= pre.subrange(0, pos as int) + seq![xv] + pre.subrange(
                pos as int,
                i as int,
            ));
            assert(forall|k: int| 0 <= k < i ==> pre[k] == #[trigger] name_views(s)[k]);
            assert forall|k: int| pos <= k < i implies leq(xv, #[trigger] name_views(s)[k]) by {
                if leq(name_views(s)[k], xv) {
                    if k > pos {
                        assert(leq(pre[pos as int], pre[k]));
                        assert(leq(name_views(s)[pos as int], xv));
                    }
                    assert(false);
                }
            }
            assert forall|a: int, b: int| 0 <= a < b < q.len() implies #[trigger] leq(
                q[a],
                q[b],
            ) by {
                assert(forall|k: int| 0 <= k < pos ==> leq(#[trigger] name_views(s)[k], xv));
            }
        }
        i = i + 1;
    }
    proof {
        assert(name_views(v@).subrange(0, i as int) =~= name_views(v@));
    }
}

/// Builds the snapshot of one run from the grouped series: for each group,
/// a file named by its key holding the series' serialized records, and the
/// index listing every series' sanitized name — its key — in sorted order.
pub fn build_snapshot(groups: &Vec<EventGroup>) -> (r: Snapshot)
    requires
        forall|j: int| 0 <= j < groups@.len() ==> all_wf(views((#[trigger] groups@[j]).events@)),
    ensures
        r.files@.len() == groups@.len(),
        forall|j: int|
            0 <= j < groups@.len() ==> (#[trigger] r.files@[j]).stem@ == groups@[j].key@,
        forall|j: int|
            0 <= j < groups@.len() ==> (#[trigger] r.files@[j]).content@ == spec_series_json(
                views(groups@[j].events@),
            ),
        r.index@ == spec_index(group_keys(groups@).sort_by(lex_le_fn())),
{
    let mut files: Vec<SeriesFile> = Vec::new();
    let mut names: Vec<Vec<u8>> = Vec::new();
    let mut j: usize = 0;
    while j < groups.len()
        invariant
            j <= groups@.len(),
            forall|k: int|
                0 <= k < groups@.len() ==> all_wf(views((#[trigger] groups@[k]).events@)),
            files@.len() == j,
            forall|k: int| 0 <= k < j ==> (#[trigger] files@[k]).stem@ == groups@[k].key@,
            forall|k: int|
                0 <= k < j ==> (#[trigger] files@[k]).content@ == spec_series_json(
                    views(groups@[k].events@),
                ),
            names@.len() == j,
            forall|k: int| 0 <= k < j ==> (#[trigger] names@[k]@) == group_keys(groups@)[k],
        decreases groups@.len() - j,
    {
        let g = &groups[j];
        proof {
            assert(all_wf(views(g.events@)));
            assert(forall|i: int|
                0 <= i < g.events@.len() ==> (#[trigger] g.events@[i])@ == views(g.events@)[i]);
        }
        let content = render_series(&g.events);
        let stem = copy_bytes(&g.key);
        files.push(SeriesFile { stem, content });
        let listed = copy_bytes(&g.key);
        names.push(listed);
        proof {
            assert(group_keys(groups@)[j as int] == groups@[j as int].key@);
        }
        j = j + 1;
    }
    let ghost before = names@;
    sort_names(&mut names);
    proof {
        lemma_lex_le_total_ordering();
        let hn = group_keys(groups@);
        assert(name_views(before) =~= hn);
        hn.lemma_sort_by_ensures(lex_le_fn());
        vstd::seq_lib::lemma_sorted_unique(
            name_views(names@),
            hn.sort_by(lex_le_fn()),
            lex_le_fn(),
        );
        assert(name_views(names@) == hn.sort_by(lex_le_fn()));
    }
    let index = render_index(&names);
    Snapshot { files, index }
}

/// Whether the persisted listing holds a file with exactly this stem and
/// this content.
pub open spec fn disk_has_file(d: Seq<FileRec>, f: FileRec) -> bool {
    exists|i: int|
        0 <= i < d.len() && (#[trigger] d[i]).stem == f.stem && d[i].content == f.content
}

/// Whether some file of the listing carries the stem.
pub open spec fn has_stem(fs: Seq<FileRec>, k: Seq<u8>) -> bool {
    exists|i: int| 0 <= i < fs.len() && (#[trigger] fs[i]).stem == k
}

/// The stem of a file, as a selector for mapping.
pub open spec fn stem_of() -> spec_fn(FileRec) -> Seq<u8> {
    |f: FileRec| f.stem
}

/// Selects the snapshot files that are not already persisted byte for byte.
pub open spec fn stale_pred(d: Seq<FileRec>) -> spec_fn(FileRec) -> bool {
    |f: FileRec| !disk_has_file(d, f)
}

/// Selects the persisted files whose stem no current series claims.
pub open spec fn orphan_pred(s: Seq<FileRec>) -> spec_fn(FileRec) -> bool {
    |f: FileRec| !has_stem(s, f.stem)
}

/// What one run must change on disk: the files to write, the stems to
/// delete, and the index content if it changed.
pub struct PersistPlan {
    pub writes: Vec<SeriesFile>,
    pub deletes: Vec<Vec<u8>>,
    pub index_write: Option<Vec<u8>>,
}

fn find_file(disk: &Vec<SeriesFile>, stem: &Vec<u8>, content: &Vec<u8>) -> (r: bool)
    ensures
        r == disk_has_file(file_views(disk@), FileRec { stem: stem@, content: content@ }),
{
    let ghost dv = file_views(disk@);
    let mut j: usize = 0;
    while j < disk.len()
        invariant
            j <= disk@.len(),
            dv == file_views(disk@),
            forall|i: int|
                0 <= i < j ==> !((#[trigger] dv[i]).stem == stem@ && dv[i].content == content@),
        decreases disk@.len() - j,
    {
        proof {
            assert(dv[j as int] == disk@[j as int]@);
        }
        if bytes_eq(&disk[j].stem, stem) && bytes_eq(&disk[j].content, content) {
            return true;
        }
        j = j + 1;
    }
    false
}

fn find_stem(fs: &Vec<SeriesFile>, stem: &Vec<u8>) -> (r: bool)
    ensures
        r == has_stem(file_views(fs@), stem@),
{
    let ghost fv = file_views(fs@);
    let mut j: usize = 0;
    while j < fs.len()
        invariant
            j <= fs@.len(),
            fv == file_views(fs@),
            forall|i: int| 0 <= i < j ==> (#[trigger] fv[i]).stem != stem@,
        decreases fs@.len() - j,
    {
        proof {
            assert(fv[j as int] == fs@[j as int]@);
        }
        if bytes_eq(&fs[j].stem, stem) {
            return true;
        }
        j = j + 1;
    }
    false
}

/// Plans one run's persistence against what is already on disk: write
/// exactly the snapshot files whose persisted content differs or is
/// missing, delete exactly the persisted files of vanished series, and
/// rewrite the index only if its content changed.
pub fn plan_persist(snap: &Snapshot, disk: &Vec<SeriesFile>, disk_index: &Option<Vec<u8>>) -> (r:
    PersistPlan)
    ensures
        file_views(r.writes@) == file_views(snap.files@).filter(stale_pred(file_views(disk@))),
        name_views(r.deletes@) == file_views(disk@).filter(
            orphan_pred(file_views(snap.files@)),
        ).map_values(stem_of()),
        r.index_write matches Some(c) ==> c@ == snap.index@,
        r.index_write is None <==> (disk_index matches Some(ix) && ix@ == snap.index@),
{
    let ghost dv = file_views(disk@);
    let ghost sv = file_views(snap.files@);
    let ghost stale = stale_pred(dv);
    let ghost orphan = orphan_pred(sv);
    let mut writes: Vec<SeriesFile> = Vec::new();
    proof {
        assert(sv.subrange(0, 0) =~= Seq::<FileRec>::empty());
        assert(file_views(writes@) =~= Seq::<FileRec>::empty().filter(stale));
    }
    let mut i: usize = 0;
    while i < snap.files.len()
        invariant
            i <= snap.files@.len(),
            dv == file_views(disk@),
            sv == file_views(snap.files@),
            stale == stale_pred(dv),
            file_views(writes@) == sv.subrange(0, i as int).filter(stale),
        decreases snap.files@.len() - i,
    {
        let ghost pre = sv.subrange(0, i as int);
        let ghost pre1 = sv.subrange(0, i as int + 1);
        let f = &snap.files[i];
        proof {
            assert(sv[i as int] == snap.files@[i as int]@);
            assert(pre1 =~= pre.push(sv[i as int]));
            pre.lemma_filter_push(sv[i as int], stale);
        }
        if !find_file(disk, &f.stem, &f.content) {
            writes.push(SeriesFile { stem: copy_bytes(&f.stem), content: copy_bytes(&f.content) });
            proof {
                assert(file_views(writes@) =~= pre.filter(stale).push(sv[i as int]));
            }
        }
        i = i + 1;
    }
    proof {
        assert(sv.subrange(0, i as int) =~= sv);
    }
    let mut deletes: Vec<Vec<u8>> = Vec::new();
    proof {
        assert(dv.subrange(0, 0) =~= Seq::<FileRec>::empty());
        assert(name_views(deletes@) =~= Seq::<FileRec>::empty().filter(orphan).map_values(
            stem_of(),
        ));
    }
    let mut j: usize = 0;
    while j < disk.len()
        invariant
            j <= disk@.len(),
            dv == file_views(disk@),
            sv == file_views(snap.files@),
            orphan == orphan_pred(sv),
            name_views(deletes@) == dv.subrange(0, j as int).filter(orphan).map_values(
                stem_of(),
            ),
        decreases disk@.len() - j,
    {
        let ghost pre = dv.subrange(0, j as int);
        let ghost pre1 = dv.subrange(0, j as int + 1);
        let d = &disk[j];
        proof {
            assert(dv[j as int] == disk@[j as int]@);
            assert(pre1 =~= pre.push(dv[j as int]));
            pre.lemma_filter_push(dv[j as int], orphan);
        }
        if !find_stem(&snap.files, &d.stem) {
            deletes.push(copy_bytes(&d.stem));
            proof {
                assert(stem_of()(dv[j as int]) == dv[j as int].stem);
                assert(orphan(dv[j as int]));
                assert(pre1.filter(orphan) == pre.filter(orphan).push(dv[j as int]));
                let lhs = name_views(deletes@);
                let rhs = pre.filter(orphan).push(dv[j as int]).map_values(stem_of());
                assert(name_views(deletes@.drop_last()).len() == pre.filter(orphan).map_values(
                    stem_of(),
                ).len());
                assert(deletes@.drop_last().len() == pre.filter(orphan).len());
                assert(lhs.len() == deletes@.len());
                assert(rhs.len() == pre.filter(orphan).len() + 1);
                assert(lhs.len() == rhs.len());
                assert forall|k: int| 0 <= k < lhs.len() implies lhs[k] == rhs[k] by {
                    if k < lhs.len() - 1 {
                        assert(lhs[k] == name_views(deletes@.drop_last())[k]);
                        assert(rhs[k] == pre.filter(orphan).map_values(stem_of())[k]);
                    }
                }
                assert(lhs =~= rhs);
            }
        } else {
            proof {
                assert(name_views(deletes@) =~= pre1.filter(orphan).map_values(
                    stem_of(),
                ));
            }
        }
        j = j + 1;
    }
    proof {
        assert(dv.subrange(0, j as int) =~= dv);
    }
    let index_write: Option<Vec<u8>> = match disk_index {
        Some(ix) => {
            if bytes_eq(ix, &snap.index) {
                None
            } else {
                Some(copy_bytes(&snap.index))
            }
        },
        None => Some(copy_bytes(&snap.index)),
    };
    PersistPlan { writes, deletes, index_write }
}

/// Idempotence: against a disk that already holds exactly the snapshot's
/// files, no file is stale and no file is orphaned, so the plan of a
/// second run over unchanged input holds no writes and no deletes (and,
/// with the persisted index equal, no index write).
pub proof fn lemma_second_run_quiescent(fs: Seq<FileRec>)
    ensures
        fs.filter(stale_pred(fs)) == Seq::<FileRec>::empty(),
        fs.filter(orphan_pred(fs)).map_values(stem_of()) == Seq::<Seq<u8>>::empty(),
{
    assert(fs.filter(stale_pred(fs)) =~= Seq::<FileRec>::empty()) by {
        if fs.filter(stale_pred(fs)).len() > 0 {
            let x = fs.filter(stale_pred(fs))[0];
            fs.lemma_filter_pred(stale_pred(fs), 0);
            assert(fs.filter(stale_pred(fs)).contains(x));
            fs.lemma_filter_contains_rev(stale_pred(fs), x);
            let i = choose|i: int| 0 <= i < fs.len() && fs[i] == x;
            assert(fs[i].stem == x.stem && fs[i].content == x.content);
            assert(disk_has_file(fs, x));
            assert(false);
        }
    }
    assert(fs.filter(orphan_pred(fs)) =~= Seq::<FileRec>::empty()) by {
        if fs.filter(orphan_pred(fs)).len() > 0 {
            let x = fs.filter(orphan_pred(fs))[0];
            fs.lemma_filter_pred(orphan_pred(fs), 0);
            assert(fs.filter(orphan_pred(fs)).contains(x));
            fs.lemma_filter_contains_rev(orphan_pred(fs), x);
            let i = choose|i: int| 0 <= i < fs.len() && fs[i] == x;
            assert(fs[i].stem == x.stem);
            assert(has_stem(fs, x.stem));
            assert(false);
        }
    }
    assert(fs.filter(orphan_pred(fs)).map_values(stem_of()) =~= Seq::<
        Seq<u8>,
    >::empty());
}

/// Synchronization: a persisted file whose series is absent from the
/// current snapshot has its stem in the delete list.
pub proof fn lemma_vanished_series_deleted(d: Seq<FileRec>, s: Seq<FileRec>, i: int)
    requires
        0 <= i < d.len(),
        !has_stem(s, d[i].stem),
    ensures
        d.filter(orphan_pred(s)).map_values(stem_of()).contains(d[i].stem),
{
    d.lemma_filter_contains(orphan_pred(s), i);
    let fl = d.filter(orphan_pred(s));
    let j = choose|j: int| 0 <= j < fl.len() && fl[j] == d[i];
    assert(fl.map_values(stem_of())[j] == d[i].stem);
}

} // verus!
