//! The marker reconciliation engine: joins the extracted label, sampler
//! loop and cue-point tables on their shared numeric identifier into one
//! list of named intervals, sorted ascending by start sample offset with
//! the identifier as deterministic secondary key.

use vstd::prelude::*;
use crate::{Marker, MarkerView, markers_view, spec_marker};
use crate::extract::{CueTable, Label, LabelView, assoc_last, labels_view};
use crate::wavtag::SampleLoop;

verus! {

/// The end sample offset the sampler loops record for `key`, where the
/// last loop bearing the identifier wins, mirroring insertion into a keyed
/// map.
pub open spec fn spec_loop_end(loops: Seq<SampleLoop>, key: u32) -> Option<u32>
    decreases loops.len(),
{
    if loops.len() == 0 {
        None
    } else if loops.last().id == key {
        Some(loops.last().end)
    } else {
        spec_loop_end(loops.drop_last(), key)
    }
}

/// Whether label `i` is the last in its list to bear its identifier.
pub open spec fn is_last_occurrence(s: Seq<LabelView>, i: int) -> bool {
    forall|j: int| i < j < s.len() ==> (#[trigger] s[j]).cue_id != s[i].cue_id
}

/// The labels from position `i` on that are the last occurrence of their
/// identifier: one label per identifier, bearing the name written last.
pub open spec fn spec_dedup_from(s: Seq<LabelView>, i: int) -> Seq<LabelView>
    decreases s.len() - i,
{
    if i < 0 || i >= s.len() {
        Seq::empty()
    } else {
        let rest = spec_dedup_from(s, i + 1);
        if is_last_occurrence(s, i) {
            seq![s[i]] + rest
        } else {
            rest
        }
    }
}

/// One label per identifier, each bearing the name written last for it.
pub open spec fn spec_dedup_labels(s: Seq<LabelView>) -> Seq<LabelView> {
    spec_dedup_from(s, 0)
}

/// The marker one label reconciles to: the end offset looked up in the
/// sampler loops (absent loops or identifier give a point marker), the
/// start offset looked up in the cue points (an absent identifier gives
/// the default start of 0, not an error).
pub open spec fn spec_marker_for(
    l: LabelView,
    loops: Option<Seq<SampleLoop>>,
    cues: Seq<(u32, u32)>,
) -> MarkerView {
    let end = match loops {
        Some(ls) => spec_loop_end(ls, l.cue_id),
        None => None,
    };
    let start = match assoc_last(cues, l.cue_id) {
        Some(s) => s,
        None => 0,
    };
    spec_marker(l.cue_id, l.name, start, end)
}

/// One marker per deduplicated label, in label order.
pub open spec fn spec_markers_of(
    dl: Seq<LabelView>,
    loops: Option<Seq<SampleLoop>>,
    cues: Seq<(u32, u32)>,
) -> Seq<MarkerView> {
    dl.map_values(|l: LabelView| spec_marker_for(l, loops, cues))
}

/// The sort order of the result: ascending by start sample offset, ties
/// broken by identifier.
pub open spec fn marker_le(a: MarkerView, b: MarkerView) -> bool {
    a.start < b.start || (a.start == b.start && a.id <= b.id)
}

/// `m` inserted into `s` before the first element it precedes.
pub open spec fn spec_insert_sorted(m: MarkerView, s: Seq<MarkerView>) -> Seq<MarkerView>
    decreases s.len(),
{
    if s.len() == 0 {
        seq![m]
    } else if marker_le(s[0], m) {
        seq![s[0]] + spec_insert_sorted(m, s.drop_first())
    } else {
        seq![m] + s
    }
}

/// `s` sorted by insertion, element by element.
pub open spec fn spec_sort_markers(s: Seq<MarkerView>) -> Seq<MarkerView>
    decreases s.len(),
{
    if s.len() == 0 {
        Seq::empty()
    } else {
        spec_insert_sorted(s.last(), spec_sort_markers(s.drop_last()))
    }
}

/// The reconciled marker list: one marker per labelled identifier, the
/// name written last winning on duplicate identifiers, joined with the end
/// offset from the sampler loops and the start offset from the cue points,
/// sorted ascending by start offset with the identifier as secondary key.
pub open spec fn spec_reconcile(
    labels: Seq<LabelView>,
    loops: Option<Seq<SampleLoop>>,
    cues: Seq<(u32, u32)>,
) -> Seq<MarkerView> {
    spec_sort_markers(spec_markers_of(spec_dedup_labels(labels), loops, cues))
}

/// Whether a marker list is sorted ascending by start offset, ties broken
/// by identifier.
pub open spec fn spec_markers_sorted(s: Seq<MarkerView>) -> bool {
    forall|i: int, j: int| 0 <= i < j < s.len() ==> marker_le(#[trigger] s[i], #[trigger] s[j])
}

/// Everything in an insertion is the inserted element or came from the
/// list.
proof fn lemma_insert_sorted_elems(m: MarkerView, s: Seq<MarkerView>, k: int)
    requires
        0 <= k < spec_insert_sorted(m, s).len(),
    ensures
        spec_insert_sorted(m, s).len() == s.len() + 1,
        spec_insert_sorted(m, s)[k] == m || s.contains(spec_insert_sorted(m, s)[k]),
    decreases s.len(),
{
    if s.len() == 0 {
    } else if marker_le(s[0], m) {
        if k > 0 {
            lemma_insert_sorted_elems(m, s.drop_first(), k - 1);
            if spec_insert_sorted(m, s.drop_first()).contains(spec_insert_sorted(m, s)[k]) {
            } else if spec_insert_sorted(m, s)[k] != m {
                let w = choose|w: int|
                    0 <= w < s.drop_first().len() && s.drop_first()[w] == spec_insert_sorted(
                        m,
                        s,
                    )[k];
                assert(s[w + 1] == spec_insert_sorted(m, s)[k]);
            }
        } else {
            assert(spec_insert_sorted(m, s)[0] == s[0]);
        }
        lemma_insert_sorted_len(m, s.drop_first());
    } else {
        if k > 0 {
            assert(spec_insert_sorted(m, s)[k] == s[k - 1]);
        }
    }
}

/// Insertion adds exactly one element.
proof fn lemma_insert_sorted_len(m: MarkerView, s: Seq<MarkerView>)
    ensures
        spec_insert_sorted(m, s).len() == s.len() + 1,
    decreases s.len(),
{
    if s.len() > 0 && marker_le(s[0], m) {
        lemma_insert_sorted_len(m, s.drop_first());
    }
}

/// Inserting into a sorted list keeps it sorted.
proof fn lemma_insert_sorted_sorted(m: MarkerView, s: Seq<MarkerView>)
    requires
        spec_markers_sorted(s),
    ensures
        spec_markers_sorted(spec_insert_sorted(m, s)),
    decreases s.len(),
{
    let out = spec_insert_sorted(m, s);
    if s.len() == 0 {
    } else if marker_le(s[0], m) {
        assert(spec_markers_sorted(s.drop_first()));
        lemma_insert_sorted_sorted(m, s.drop_first());
        let tail = spec_insert_sorted(m, s.drop_first());
        lemma_insert_sorted_len(m, s.drop_first());
        assert forall|i: int, j: int| 0 <= i < j < out.len() implies marker_le(
            #[trigger] out[i],
            #[trigger] out[j],
        ) by {
            if i == 0 {
                lemma_insert_sorted_elems(m, s.drop_first(), j - 1);
                assert(out[j] == tail[j - 1]);
                if tail[j - 1] == m {
                } else {
                    let w = choose|w: int|
                        0 <= w < s.drop_first().len() && s.drop_first()[w] == tail[j - 1];
                    assert(s[w + 1] == tail[j - 1]);
                    assert(marker_le(s[0], s[w + 1]));
                }
            } else {
                assert(out[i] == tail[i - 1]);
                assert(out[j] == tail[j - 1]);
                assert(marker_le(tail[i - 1], tail[j - 1]));
            }
        }
    } else {
        assert forall|i: int, j: int| 0 <= i < j < out.len() implies marker_le(
            #[trigger] out[i],
            #[trigger] out[j],
        ) by {
            if i == 0 {
                if j > 0 {
                    assert(out[j] == s[j - 1]);
                    assert(!marker_le(s[0], m));
                    assert(marker_le(m, s[0]));
                    if j > 1 {
                        assert(marker_le(s[0], s[j - 1]));
                    }
                }
            } else {
                assert(out[i] == s[i - 1]);
                assert(out[j] == s[j - 1]);
            }
        }
    }
}

/// The reconciled marker list is sorted ascending by start sample offset,
/// ties broken by identifier.
pub proof fn lemma_sort_markers_sorted(s: Seq<MarkerView>)
    ensures
        spec_markers_sorted(spec_sort_markers(s)),
    decreases s.len(),
{
    if s.len() > 0 {
        lemma_sort_markers_sorted(s.drop_last());
        lemma_insert_sorted_sorted(s.last(), spec_sort_markers(s.drop_last()));
    }
}

/// Reconciliation is a pure function of the three extracted tables:
/// re-running it on the same label, sampler-loop and cue-point tables
/// produces an identical ordered marker list.
pub proof fn lemma_reconcile_deterministic(
    labels: Seq<LabelView>,
    loops: Option<Seq<SampleLoop>>,
    cues: Seq<(u32, u32)>,
    m1: Seq<MarkerView>,
    m2: Seq<MarkerView>,
)
    requires
        m1 == spec_reconcile(labels, loops, cues),
        m2 == spec_reconcile(labels, loops, cues),
    ensures
        m1 == m2,
{
}

fn lookup_loop_end(loops: &Vec<SampleLoop>, key: u32) -> (r: Option<u32>)
    ensures
        r == spec_loop_end(loops@, key),
{
    let mut r: Option<u32> = None;
    let n = loops.len();
    for i in 0..n
        invariant
            n == loops@.len(),
            r == spec_loop_end(loops@.take(i as int), key),
    {
        let lp = loops[i];
        if lp.id == key {
            r = Some(lp.end);
        }
        proof {
            let s = loops@.take(i as int + 1);
            assert(s.last() == loops@[i as int]);
            assert(s.drop_last() =~= loops@.take(i as int));
        }
    }
    proof {
        assert(loops@.take(n as int) =~= loops@);
    }
    r
}

fn marker_le_exec(a: &Marker, b: &Marker) -> (r: bool)
    ensures
        r == marker_le(a@, b@),
{
    a.start < b.start || (a.start == b.start && a.id <= b.id)
}

/// Keeps, in order, each label that is the last to bear its identifier.
fn dedup_labels(labels: &Vec<Label>) -> (r: Vec<Label>)
    ensures
        labels_view(r@) == spec_dedup_labels(labels_view(labels@)),
{
    let ghost lv = labels_view(labels@);
    let n = labels.len();
    let mut deduped: Vec<Label> = Vec::new();
    proof {
        assert(labels_view(deduped@) + spec_dedup_from(lv, 0) =~= spec_dedup_from(lv, 0));
    }
    for i in 0..n
        invariant
            n == labels@.len(),
            lv == labels_view(labels@),
            spec_dedup_from(lv, 0) == labels_view(deduped@) + spec_dedup_from(lv, i as int),
    {
        let mut found_later = false;
        let mut j = i + 1;
        while j < n
            invariant
                i < j <= n,
                n == labels@.len(),
                lv == labels_view(labels@),
                found_later == exists|k: int|
                    i < k < j && (#[trigger] lv[k]).cue_id == lv[i as int].cue_id,
            decreases n - j,
        {
            if labels[j].cue_id == labels[i].cue_id {
                found_later = true;
                proof {
                    assert(lv[j as int].cue_id == lv[i as int].cue_id);
                }
            }
            j = j + 1;
        }
        let ghost old_deduped = deduped@;
        if !found_later {
            let l = &labels[i];
            deduped.push(Label { cue_id: l.cue_id, name: l.name.clone() });
        }
        proof {
            let rest = spec_dedup_from(lv, i as int + 1);
            if found_later {
                assert(!is_last_occurrence(lv, i as int));
                assert(spec_dedup_from(lv, i as int) == rest);
                assert(labels_view(deduped@) == labels_view(old_deduped));
            } else {
                assert(is_last_occurrence(lv, i as int));
                assert(spec_dedup_from(lv, i as int) == seq![lv[i as int]] + rest);
                assert(deduped@ =~= old_deduped.push(deduped@[deduped@.len() - 1]));
                assert(deduped@[deduped@.len() - 1]@ == lv[i as int]);
                assert(labels_view(deduped@) =~= labels_view(old_deduped).push(lv[i as int]));
                assert(labels_view(old_deduped) + (seq![lv[i as int]] + rest) =~= labels_view(
                    deduped@,
                ) + rest);
            }
        }
    }
    proof {
        assert(spec_dedup_from(lv, n as int) =~= Seq::<LabelView>::empty());
        assert(labels_view(deduped@) + Seq::<LabelView>::empty() =~= labels_view(deduped@));
    }
    deduped
}

/// `m` belongs at position `j` of `s`: inserting it there is the sorted
/// insertion.
proof fn lemma_insert_sorted_at(m: MarkerView, s: Seq<MarkerView>, j: int)
    requires
        0 <= j <= s.len(),
        forall|k: int| 0 <= k < j ==> marker_le(#[trigger] s[k], m),
        j < s.len() ==> !marker_le(s[j], m),
    ensures
        spec_insert_sorted(m, s) == s.take(j) + seq![m] + s.skip(j),
    decreases j,
{
    if s.len() == 0 {
        assert(s.take(0) + seq![m] + s.skip(0) =~= seq![m]);
    } else if j == 0 {
        assert(s.take(0) + seq![m] + s.skip(0) =~= seq![m] + s);
    } else {
        assert(marker_le(s[0], m));
        let d = s.drop_first();
        assert(forall|k: int| 0 <= k < j - 1 ==> marker_le(#[trigger] d[k], m));
        lemma_insert_sorted_at(m, d, j - 1);
        assert(seq![s[0]] + (d.take(j - 1) + seq![m] + d.skip(j - 1)) =~= s.take(j) + seq![m]
            + s.skip(j));
    }
}

/// Matches labels with sampler loops and cue points to build the complete
/// marker list: one marker per labelled identifier (a label is the minimum
/// requirement for emission), with the end offset from the sampler loops
/// where one exists and the start offset from the cue points, defaulting
/// to 0. The result is sorted ascending by start offset, ties broken by
/// identifier.
pub fn match_markers(
    labels: &Vec<Label>,
    sampler_loops: &Option<Vec<SampleLoop>>,
    cue_points: &CueTable,
) -> (r: Vec<Marker>)
    ensures
        markers_view(r@) == spec_reconcile(
            labels_view(labels@),
            match sampler_loops {
                Some(ls) => Some(ls@),
                None => None,
            },
            cue_points.entries@,
        ),
        spec_markers_sorted(markers_view(r@)),
{
    let ghost loops_v: Option<Seq<SampleLoop>> = match sampler_loops {
        Some(ls) => Some(ls@),
        None => None,
    };
    let ghost cues_v = cue_points.entries@;
    let deduped = dedup_labels(labels);
    let ghost dl = labels_view(deduped@);

    // build one marker per deduplicated label
    let mut built: Vec<Marker> = Vec::new();
    let n = deduped.len();
    for i in 0..n
        invariant
            n == deduped@.len(),
            dl == labels_view(deduped@),
            loops_v == match sampler_loops {
                Some(ls) => Some(ls@),
                None => None,
            },
            cues_v == cue_points.entries@,
            markers_view(built@) == spec_markers_of(dl.take(i as int), loops_v, cues_v),
    {
        let l = &deduped[i];
        let end = match sampler_loops {
            Some(ls) => lookup_loop_end(ls, l.cue_id),
            None => None,
        };
        let start = match cue_points.lookup(l.cue_id) {
            Some(s) => s,
            None => 0,
        };
        let ghost old_built = built@;
        built.push(Marker::new(l.cue_id, l.name.clone(), start, end));
        proof {
            assert(built@ =~= old_built.push(built@[built@.len() - 1]));
            assert(built@[built@.len() - 1]@ == spec_marker_for(dl[i as int], loops_v, cues_v));
            assert(markers_view(built@) =~= markers_view(old_built).push(
                spec_marker_for(dl[i as int], loops_v, cues_v),
            ));
            assert(dl.take(i as int + 1) =~= dl.take(i as int).push(dl[i as int]));
            assert(spec_markers_of(dl.take(i as int + 1), loops_v, cues_v) =~= spec_markers_of(
                dl.take(i as int),
                loops_v,
                cues_v,
            ).push(spec_marker_for(dl[i as int], loops_v, cues_v)));
        }
    }
    proof {
        assert(dl.take(n as int) =~= dl);
    }
    let ghost bv = markers_view(built@);

    // sort by start offset, ties broken by identifier
    let mut sorted: Vec<Marker> = Vec::new();
    let m = built.len();
    proof {
        assert(bv.take(0) =~= Seq::<MarkerView>::empty());
        assert(markers_view(sorted@) =~= spec_sort_markers(bv.take(0)));
    }
    for i in 0..m
        invariant
            m == built@.len(),
            bv == markers_view(built@),
            markers_view(sorted@) == spec_sort_markers(bv.take(i as int)),
            spec_markers_sorted(markers_view(sorted@)),
    {
        let mk = &built[i];
        let mut j: usize = 0;
        let ghost sv = markers_view(sorted@);
        while j < sorted.len() && marker_le_exec(&sorted[j], mk)
            invariant
                0 <= j <= sorted@.len(),
                sv == markers_view(sorted@),
                m == built@.len(),
                i < m,
                mk@ == built@[i as int]@,
                forall|k: int| 0 <= k < j ==> marker_le(#[trigger] sv[k], built@[i as int]@),
            decreases sorted@.len() - j,
        {
            proof {
                assert(sv[j as int] == sorted@[j as int]@);
            }
            j = j + 1;
        }
        proof {
            if (j as int) < sv.len() {
                assert(sv[j as int] == sorted@[j as int]@);
            }
            lemma_insert_sorted_at(built@[i as int]@, sv, j as int);
        }
        let ghost old_sorted = sorted@;
        let copy = Marker {
            id: mk.id,
            name: mk.name.clone(),
            kind: mk.kind,
            start: mk.start,
            end: mk.end,
        };
        sorted.insert(j, copy);
        proof {
            let mv = built@[i as int]@;
            assert(sorted@ =~= old_sorted.insert(j as int, sorted@[j as int]));
            assert(sorted@[j as int]@ == mv);
            assert forall|k: int| 0 <= k < sorted@.len() implies markers_view(sorted@)[k] == (
            sv.take(j as int) + seq![mv] + sv.skip(j as int))[k] by {
                if k < j as int {
                    assert(sorted@[k] == old_sorted[k]);
                } else if k > j as int {
                    assert(sorted@[k] == old_sorted[k - 1]);
                }
            }
            assert(markers_view(sorted@) =~= sv.take(j as int) + seq![mv] + sv.skip(j as int));
            assert(bv.take(i as int + 1).drop_last() =~= bv.take(i as int));
            assert(bv.take(i as int + 1).last() == mv);
            assert(spec_sort_markers(bv.take(i as int + 1)) == spec_insert_sorted(
                mv,
                spec_sort_markers(bv.take(i as int)),
            ));
            lemma_insert_sorted_sorted(mv, sv);
        }
    }
    proof {
        assert(bv.take(m as int) =~= bv);
    }
    sorted
}

} // verus!
