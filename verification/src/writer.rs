//! The alignment writer: walks the backtrace path in genomic order (i.e.
//! reversed), fetches the referenced intervals, blanks the gapped side of
//! each gap step, classifies each pairing, and emits one row per step. The
//! sentinel corner (0, 0) is never emitted; an unknown step kind is an
//! alignment-invariant violation.

use vstd::prelude::*;

use crate::model::{
    AlignTag, HorScanError, MonAlignmentRow, MonRow, RowModel, gap_seq, gap_string, is_gap_label,
    models, row_model, tag_wf,
};
use crate::extract::view_path;

verus! {

/// The row one path step denotes: a source-consuming step keeps the source
/// interval and blanks the target side (both coordinates set to the
/// target's start, label the gap marker), tagged a deletion; a
/// target-consuming step symmetrically, tagged an insertion; a diagonal
/// step keeps both sides and is a match exactly when the labels agree.
pub open spec fn row_for_step(src: Seq<MonRow>, tgt: Seq<MonRow>, st: (int, int, int)) -> RowModel {
    let s = src[st.0];
    let t = tgt[st.1];
    if st.2 == 1 {
        RowModel {
            source: s.sample@,
            source_start: s.start as int,
            source_end: s.end as int,
            source_mon: s.mon@,
            target: t.sample@,
            target_start: t.start as int,
            target_end: t.start as int,
            target_mon: gap_seq(),
            align_type: AlignTag::Del,
        }
    } else if st.2 == 2 {
        RowModel {
            source: s.sample@,
            source_start: s.start as int,
            source_end: s.start as int,
            source_mon: gap_seq(),
            target: t.sample@,
            target_start: t.start as int,
            target_end: t.end as int,
            target_mon: t.mon@,
            align_type: AlignTag::Ins,
        }
    } else {
        RowModel {
            source: s.sample@,
            source_start: s.start as int,
            source_end: s.end as int,
            source_mon: s.mon@,
            target: t.sample@,
            target_start: t.start as int,
            target_end: t.end as int,
            target_mon: t.mon@,
            align_type: if s.mon@ == t.mon@ {
                AlignTag::Mth
            } else {
                AlignTag::Mis
            },
        }
    }
}

/// One step as the writer keeps it: nothing for the sentinel corner.
pub open spec fn kept_one(st: (int, int, int)) -> Seq<(int, int, int)> {
    if st.0 == 0 && st.1 == 0 {
        Seq::empty()
    } else {
        seq![st]
    }
}

/// The steps the writer emits, in genomic order: the path read backwards,
/// with every sentinel-corner step dropped.
pub open spec fn kept_steps(p: Seq<(int, int, int)>) -> Seq<(int, int, int)>
    decreases p.len(),
{
    if p.len() == 0 {
        Seq::empty()
    } else {
        kept_one(p.last()) + kept_steps(p.drop_last())
    }
}

/// The rows a step list denotes.
pub open spec fn rows_for_steps(src: Seq<MonRow>, tgt: Seq<MonRow>, steps: Seq<(int, int, int)>) -> Seq<
    RowModel,
> {
    steps.map_values(|st: (int, int, int)| row_for_step(src, tgt, st))
}

/// Every step kind of the path is one the writer knows.
pub open spec fn kinds_ok(p: Seq<(int, int, int)>) -> bool {
    forall|k: int|
        0 <= k < p.len() ==> ((#[trigger] p[k]).0 == 0 && p[k].1 == 0) || 0 <= p[k].2 <= 2
}

/// Prepending a step to the path appends its kept row, since the path is
/// read backwards.
proof fn lemma_kept_cons(x: (int, int, int), q: Seq<(int, int, int)>)
    ensures
        kept_steps(seq![x] + q) == kept_steps(q) + kept_one(x),
    decreases q.len(),
{
    let c = seq![x] + q;
    if q.len() == 0 {
        assert(c.last() == x);
        assert(c.drop_last() =~= Seq::<(int, int, int)>::empty());
        assert(kept_steps(c.drop_last()) =~= Seq::<(int, int, int)>::empty());
        assert(kept_steps(c) =~= kept_steps(q) + kept_one(x));
    } else {
        assert(c.drop_last() =~= seq![x] + q.drop_last());
        assert(c.last() == q.last());
        lemma_kept_cons(x, q.drop_last());
        assert(kept_steps(c) =~= kept_steps(q) + kept_one(x));
    }
}

/// Every step the writer keeps comes from the path.
pub proof fn lemma_kept_subset(p: Seq<(int, int, int)>)
    ensures
        forall|st: (int, int, int)| kept_steps(p).contains(st) ==> p.contains(st),
    decreases p.len(),
{
    if p.len() > 0 {
        lemma_kept_subset(p.drop_last());
        assert forall|st: (int, int, int)| kept_steps(p).contains(st) implies p.contains(st) by {
            if st == p.last() {
                assert(p[p.len() - 1] == st);
            } else {
                assert(kept_steps(p.drop_last()).contains(st));
                assert(p.drop_last().contains(st));
                let w = choose|w: int| 0 <= w < p.drop_last().len() && p.drop_last()[w] == st;
                assert(p[w] == st);
            }
        }
    }
}

/// Map the reversed path onto the two interval sequences, one classified
/// row per non-sentinel step; fail on a step kind the writer does not know.
pub fn make_alignment_rows(
    source_bed: &Vec<MonRow>,
    target_bed: &Vec<MonRow>,
    alignment_path: &Vec<(usize, usize, usize)>,
) -> (r: Result<Vec<MonAlignmentRow>, HorScanError>)
    requires
        forall|k: int|
            0 <= k < alignment_path@.len() ==> (#[trigger] alignment_path@[k]).0
                < source_bed@.len() && alignment_path@[k].1 < target_bed@.len(),
    ensures
        r is Ok <==> kinds_ok(view_path(alignment_path@)),
        r is Ok ==> models((r->Ok_0)@) == rows_for_steps(
            source_bed@,
            target_bed@,
            kept_steps(view_path(alignment_path@)),
        ),
        r is Err ==> r->Err_0 is AlignmentError,
{
    let ghost vp = view_path(alignment_path@);
    let ghost src = source_bed@;
    let ghost tgt = target_bed@;
    let n = alignment_path.len();
    let mut rows: Vec<MonAlignmentRow> = Vec::new();
    let mut idx: usize = n;
    while idx > 0
        invariant
            vp == view_path(alignment_path@),
            src == source_bed@,
            tgt == target_bed@,
            n == alignment_path@.len(),
            forall|k: int|
                0 <= k < alignment_path@.len() ==> (#[trigger] alignment_path@[k]).0 < src.len()
                    && alignment_path@[k].1 < tgt.len(),
            idx <= n,
            models(rows@) == rows_for_steps(src, tgt, kept_steps(vp.subrange(idx as int, n as int))),
            forall|k: int| idx <= k < n ==> ((#[trigger] vp[k]).0 == 0 && vp[k].1 == 0) || vp[k].2 <= 2,
        decreases idx,
    {
        idx = idx - 1;
        let step = alignment_path[idx];
        proof {
            assert(vp[idx as int] == (step.0 as int, step.1 as int, step.2 as int));
            assert(vp.subrange(idx as int, n as int) =~= seq![vp[idx as int]] + vp.subrange(
                idx as int + 1,
                n as int,
            ));
            lemma_kept_cons(vp[idx as int], vp.subrange(idx as int + 1, n as int));
        }
        if step.0 == 0 && step.1 == 0 {
            proof {
                assert(models(rows@) =~= rows_for_steps(
                    src,
                    tgt,
                    kept_steps(vp.subrange(idx as int, n as int)),
                ));
            }
        } else {
            let source_row = &source_bed[step.0];
            let target_row = &target_bed[step.1];
            let out_row: MonAlignmentRow;
            if step.2 == 2 {
                out_row = MonAlignmentRow {
                    source: source_row.sample.clone(),
                    source_start: source_row.start,
                    source_end: source_row.start,
                    source_mon: gap_string(),
                    target: target_row.sample.clone(),
                    target_start: target_row.start,
                    target_end: target_row.end,
                    target_mon: target_row.mon.clone(),
                    align_type: AlignTag::Ins,
                };
            } else if step.2 == 1 {
                out_row = MonAlignmentRow {
                    source: source_row.sample.clone(),
                    source_start: source_row.start,
                    source_end: source_row.end,
                    source_mon: source_row.mon.clone(),
                    target: target_row.sample.clone(),
                    target_start: target_row.start,
                    target_end: target_row.start,
                    target_mon: gap_string(),
                    align_type: AlignTag::Del,
                };
            } else if step.2 == 0 {
                let tag = if source_row.mon == target_row.mon {
                    AlignTag::Mth
                } else {
                    AlignTag::Mis
                };
                out_row = MonAlignmentRow {
                    source: source_row.sample.clone(),
                    source_start: source_row.start,
                    source_end: source_row.end,
                    source_mon: source_row.mon.clone(),
                    target: target_row.sample.clone(),
                    target_start: target_row.start,
                    target_end: target_row.end,
                    target_mon: target_row.mon.clone(),
                    align_type: tag,
                };
            } else {
                proof {
                    assert(!kinds_ok(vp));
                }
                return Err(HorScanError::AlignmentError("unknown alignment step kind".to_owned()));
            }
            rows.push(out_row);
            proof {
                assert(row_model(out_row) == row_for_step(src, tgt, vp[idx as int]));
                assert(kept_steps(vp.subrange(idx as int, n as int)) == kept_steps(
                    vp.subrange(idx as int + 1, n as int),
                ) + seq![vp[idx as int]]);
                assert(rows_for_steps(src, tgt, kept_steps(vp.subrange(idx as int, n as int)))
                    =~= rows_for_steps(src, tgt, kept_steps(vp.subrange(idx as int + 1, n as int)))
                    + seq![row_for_step(src, tgt, vp[idx as int])]);
                assert(models(rows@) =~= rows_for_steps(
                    src,
                    tgt,
                    kept_steps(vp.subrange(idx as int, n as int)),
                ));
            }
        }
    }
    proof {
        assert(vp.subrange(0, n as int) =~= vp);
    }
    Ok(rows)
}

/// Every row the writer emits satisfies the tag classification, as long as
/// every diagonal step of the path pairs two non-gap labels (as every path
/// drawn from a gap-free, sentinel-prefixed input does): gap steps carry
/// the gap marker on their blanked side by construction, and a diagonal
/// step is a match exactly when its labels agree.
pub proof fn lemma_writer_rows_tag_wf(src: Seq<MonRow>, tgt: Seq<MonRow>, steps: Seq<(int, int, int)>)
    requires
        forall|k: int|
            0 <= k < steps.len() && (#[trigger] steps[k]).2 != 1 && steps[k].2 != 2 ==> !is_gap_label(
                src[steps[k].0].mon@,
            ) && !is_gap_label(tgt[steps[k].1].mon@),
    ensures
        forall|k: int|
            0 <= k < steps.len() ==> tag_wf(#[trigger] rows_for_steps(src, tgt, steps)[k]),
{
    assert forall|k: int| 0 <= k < steps.len() implies tag_wf(
        #[trigger] rows_for_steps(src, tgt, steps)[k],
    ) by {
        assert(rows_for_steps(src, tgt, steps)[k] == row_for_step(src, tgt, steps[k]));
    }
}

} // verus!
