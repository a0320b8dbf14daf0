//! The whole alignment computation on in-memory interval lists: sort both
//! inputs by start coordinate, prepend the gap sentinel, fill the score
//! matrix, backtrace the path, and emit the classified rows.

use vstd::prelude::*;
use vstd::seq_lib::to_multiset_insert;
use vstd::seq_lib::to_multiset_build;

use crate::engine::{
    MAX_ALIGN_LEN, horscan_global_linear_score_alignment_low, labels_of, lemma_score_boundary,
    lemma_score_floor, matrix_ok, spec_score,
};
use crate::extract::{
    cell, desc_cols, desc_rows, end_max_i, end_max_j, find_global_alignment_all_path_low,
    lemma_col_best_bounds, lemma_col_best_cell, lemma_desc_cols_index, lemma_desc_rows_index,
    lemma_full_path_props, lemma_row_best_bounds, lemma_row_best_cell, lemma_tail_diag_interior,
    rect, spec_full_path, start_cell, tail_path,
    view_path,
};
use crate::model::{
    HorScanError, Mode, MonAlignmentRow, MonRow, gap_seq, gap_string, is_gap_label, models, tag_wf,
};
use crate::writer::{
    kept_steps, kinds_ok, lemma_kept_subset, lemma_writer_rows_tag_wf, make_alignment_rows,
    rows_for_steps,
};

verus! {

/// The rows are ordered by ascending start coordinate.
pub open spec fn sorted_by_start(s: Seq<MonRow>) -> bool {
    forall|a: int, b: int| 0 <= a < b < s.len() ==> (#[trigger] s[a]).start <= (#[trigger] s[b]).start
}

/// A sentinel-prefixed form of a sorted permutation of the given rows: one
/// leading row at coordinate zero carrying the gap label and the first
/// row's sample name, then the input rows in ascending start order.
pub open spec fn sentineled(s: Seq<MonRow>, input: Seq<MonRow>) -> bool {
    &&& s.len() == input.len() + 1
    &&& s[0].start == 0
    &&& s[0].end == 0
    &&& s[0].mon@ == gap_seq()
    &&& input.len() > 0 ==> s[0].sample@ == s[1].sample@
    &&& sorted_by_start(s.skip(1))
    &&& s.skip(1).to_multiset() == input.to_multiset()
}

/// Copy one interval row.
fn clone_mon_row(r: &MonRow) -> (c: MonRow)
    ensures
        c == *r,
{
    MonRow { sample: r.sample.clone(), start: r.start, end: r.end, mon: r.mon.clone() }
}

/// Sort interval rows by ascending start coordinate. The result holds
/// exactly the input rows; rows with equal starts keep no promised order.
pub fn sort_by_start(rows: &Vec<MonRow>) -> (r: Vec<MonRow>)
    ensures
        sorted_by_start(r@),
        r@.to_multiset() == rows@.to_multiset(),
        r@.len() == rows@.len(),
{
    let mut out: Vec<MonRow> = Vec::new();
    proof {
        assert(rows@.subrange(0, 0) =~= Seq::<MonRow>::empty());
        assert(out@.to_multiset() =~= rows@.subrange(0, 0).to_multiset());
    }
    let mut i: usize = 0;
    while i < rows.len()
        invariant
            i <= rows@.len(),
            sorted_by_start(out@),
            out@.to_multiset() == rows@.subrange(0, i as int).to_multiset(),
            out@.len() == i,
        decreases rows@.len() - i,
    {
        let key = clone_mon_row(&rows[i]);
        let mut pos: usize = 0;
        while pos < out.len() && out[pos].start <= key.start
            invariant
                pos <= out@.len(),
                sorted_by_start(out@),
                key == rows@[i as int],
                forall|k: int| 0 <= k < pos ==> (#[trigger] out@[k]).start <= key.start,
            decreases out@.len() - pos,
        {
            pos = pos + 1;
        }
        let ghost pre = out@;
        out.insert(pos, key);
        proof {
            assert(rows@.subrange(0, i as int + 1) =~= rows@.subrange(0, i as int).push(
                rows@[i as int],
            ));
            assert(out@ == pre.insert(pos as int, key));
            to_multiset_insert(pre, pos as int, key);
            to_multiset_build(rows@.subrange(0, i as int), rows@[i as int]);
            assert forall|a: int, b: int| 0 <= a < b < out@.len() implies (#[trigger] out@[a]).start
                <= (#[trigger] out@[b]).start by {
                if b < pos {
                    assert(out@[a] == pre[a] && out@[b] == pre[b]);
                } else if a > pos {
                    assert(out@[a] == pre[a - 1] && out@[b] == pre[b - 1]);
                } else if a < pos && b == pos {
                    assert(out@[a] == pre[a]);
                } else if a == pos {
                    assert(out@[b] == pre[b - 1]);
                    assert(pre[pos as int].start > key.start || pos == pre.len());
                } else {
                    assert(out@[a] == pre[a]);
                    assert(out@[b] == pre[b - 1]);
                }
            }
        }
        i = i + 1;
    }
    proof {
        assert(rows@.subrange(0, rows@.len() as int) =~= rows@);
    }
    out
}

/// Every row written for a path drawn from a real score matrix is
/// classified, as long as the gap penalty is not a reward and no input
/// label beyond the sentinel is the gap marker: a match pairs equal
/// occupied labels, a mismatch different occupied labels, a deletion has a
/// target-side gap, an insertion a source-side gap.
pub proof fn lemma_alignment_rows_classified(
    sb: Seq<MonRow>,
    tb: Seq<MonRow>,
    mat: Seq<Vec<i64>>,
    mode: Mode,
)
    requires
        rect(mat),
        matrix_ok(mat, labels_of(sb), labels_of(tb), mode),
        mode.gap_score <= 0,
        sb.len() >= 2,
        tb.len() >= 2,
        forall|k: int| 1 <= k < sb.len() ==> !is_gap_label((#[trigger] sb[k]).mon@),
        forall|k: int| 1 <= k < tb.len() ==> !is_gap_label((#[trigger] tb[k]).mon@),
    ensures
        forall|k: int|
            0 <= k < rows_for_steps(sb, tb, kept_steps(spec_full_path(mat))).len() ==> tag_wf(
                #[trigger] rows_for_steps(sb, tb, kept_steps(spec_full_path(mat)))[k],
            ),
{
    let src = labels_of(sb);
    let tgt = labels_of(tb);
    let m = mat.len() as int;
    let n = mat[0]@.len() as int;
    assert(m == sb.len());
    assert(n == tb.len());
    lemma_full_path_props(mat);
    lemma_col_best_cell(mat, m - 1);
    lemma_row_best_cell(mat, n - 1);
    lemma_col_best_bounds(mat, m - 1);
    lemma_row_best_bounds(mat, n - 1);
    let corner = cell(mat, m - 1, n - 1);
    lemma_score_floor(src, tgt, mode, m - 1, n - 1);
    assert(corner == spec_score(src, tgt, mode, m - 1, n - 1));
    assert(corner >= 0);
    lemma_score_boundary(src, tgt, mode, m - 1, n - 1);
    assert(cell(mat, 0, n - 1) == mode.gap_score as int * (n - 1));
    assert(cell(mat, m - 1, 0) == mode.gap_score as int * (m - 1));
    assert(mode.gap_score as int * (n - 1) <= 0 && mode.gap_score as int * (m - 1) <= 0)
        by (nonlinear_arith)
        requires
            mode.gap_score as int <= 0,
            n - 1 >= 0,
            m - 1 >= 0,
    ;
    let mi = end_max_i(mat);
    let mj = end_max_j(mat);
    let s = start_cell(mat);
    if mi == m - 1 && mj == n - 1 {
    } else if cell(mat, mi, n - 1) > cell(mat, m - 1, mj) {
        assert(mi != 0);
    } else {
        if mj != n - 1 {
            assert(mj != 0);
        }
    }
    assert(s.0 >= 1 && s.1 >= 1);
    lemma_tail_diag_interior(mat, s.0, s.1);
    let trim = if mi == m - 1 && mj == n - 1 {
        Seq::<(int, int, int)>::empty()
    } else if cell(mat, mi, n - 1) > cell(mat, m - 1, mj) {
        desc_rows(n - 1, m - 1, mi)
    } else {
        desc_cols(m - 1, n - 1, mj)
    };
    if !(mi == m - 1 && mj == n - 1) {
        if cell(mat, mi, n - 1) > cell(mat, m - 1, mj) {
            lemma_desc_rows_index(n - 1, m - 1, mi);
        } else {
            lemma_desc_cols_index(m - 1, n - 1, mj);
        }
    }
    let tail = tail_path(mat, s.0, s.1);
    let p = spec_full_path(mat);
    assert(p == trim + seq![(s.0, s.1, 0int)] + tail);
    assert forall|k: int|
        0 <= k < p.len() && (#[trigger] p[k]).2 == 0 implies p[k].0 >= 1 && p[k].1 >= 1 by {
        let tl = trim.len();
        if k < tl {
            assert(p[k] == trim[k]);
        } else if k == tl {
            assert(p[k] == (s.0, s.1, 0int));
        } else {
            assert(p[k] == tail[k - tl - 1]);
        }
    }
    lemma_kept_subset(p);
    let kept = kept_steps(p);
    assert forall|k: int|
        0 <= k < kept.len() && (#[trigger] kept[k]).2 != 1 && kept[k].2 != 2 implies !is_gap_label(
        sb[kept[k].0].mon@) && !is_gap_label(tb[kept[k].1].mon@) by {
        assert(kept.contains(kept[k]));
        assert(p.contains(kept[k]));
        let w = choose|w: int| 0 <= w < p.len() && p[w] == kept[k];
        assert(0 <= p[w].2 <= 2);
        assert(p[w].2 == 0);
        assert(p[w].0 >= 1 && p[w].1 >= 1);
        assert(p[w].0 < sb.len() && p[w].1 < tb.len());
    }
    lemma_writer_rows_tag_wf(sb, tb, kept);
}

/// Align two interval lists: sort each by start, prepend the sentinel, fill
/// the score matrix, backtrace, and classify one row per recorded step. The
/// result is exactly the written form of the traceback path of the score
/// matrix of the two sentineled sequences.
pub fn horscan_align(
    source_bed: &Vec<MonRow>,
    target_bed: &Vec<MonRow>,
    mode: Mode,
) -> (r: Result<Vec<MonAlignmentRow>, HorScanError>)
    requires
        1 <= source_bed@.len(),
        1 <= target_bed@.len(),
        source_bed@.len() < MAX_ALIGN_LEN,
        target_bed@.len() < MAX_ALIGN_LEN,
    ensures
        r is Ok,
        exists|sb: Seq<MonRow>, tb: Seq<MonRow>, mat: Seq<Vec<i64>>|
            {
                &&& sentineled(sb, source_bed@)
                &&& sentineled(tb, target_bed@)
                &&& rect(mat)
                &&& #[trigger] matrix_ok(mat, labels_of(sb), labels_of(tb), mode)
                &&& models((r->Ok_0)@) == rows_for_steps(sb, tb, kept_steps(spec_full_path(mat)))
            },
        (mode.gap_score <= 0 && (forall|k: int|
            0 <= k < source_bed@.len() ==> !is_gap_label((#[trigger] source_bed@[k]).mon@))
            && (forall|k: int|
            0 <= k < target_bed@.len() ==> !is_gap_label((#[trigger] target_bed@[k]).mon@)))
            ==> (forall|k: int|
            0 <= k < (r->Ok_0)@.len() ==> tag_wf(#[trigger] models((r->Ok_0)@)[k])),
{
    let sorted_src = sort_by_start(source_bed);
    let sorted_tgt = sort_by_start(target_bed);
    let src_sample = sorted_src[0].sample.clone();
    let tgt_sample = sorted_tgt[0].sample.clone();
    let mut sb = sorted_src;
    let mut tb = sorted_tgt;
    let ghost sorted_src_view = sb@;
    let ghost sorted_tgt_view = tb@;
    sb.insert(0, MonRow { sample: src_sample, start: 0, end: 0, mon: gap_string() });
    tb.insert(0, MonRow { sample: tgt_sample, start: 0, end: 0, mon: gap_string() });
    proof {
        assert(sb@.skip(1) =~= sorted_src_view);
        assert(tb@.skip(1) =~= sorted_tgt_view);
        assert(sb@[1] == sorted_src_view[0]);
        assert(tb@[1] == sorted_tgt_view[0]);
        assert(sentineled(sb@, source_bed@));
        assert(sentineled(tb@, target_bed@));
    }
    let score = match horscan_global_linear_score_alignment_low(&sb, &tb, mode) {
        Ok(m) => m,
        Err(e) => {
            return Err(e);
        },
    };
    proof {
        assert(rect(score@));
    }
    let alignment_path = match find_global_alignment_all_path_low(&score) {
        Ok(p) => p,
        Err(e) => {
            return Err(e);
        },
    };
    proof {
        lemma_full_path_props(score@);
        assert(kinds_ok(spec_full_path(score@)));
        assert forall|k: int| 0 <= k < alignment_path@.len() implies (
        #[trigger] alignment_path@[k]).0 < sb@.len() && alignment_path@[k].1 < tb@.len() by {
            assert(view_path(alignment_path@)[k] == (
                alignment_path@[k].0 as int,
                alignment_path@[k].1 as int,
                alignment_path@[k].2 as int,
            ));
            assert(spec_full_path(score@)[k].0 < score@.len());
        }
    }
    let rows = match make_alignment_rows(&sb, &tb, &alignment_path) {
        Ok(rs) => rs,
        Err(e) => {
            return Err(e);
        },
    };
    proof {
        assert(sentineled(sb@, source_bed@) && sentineled(tb@, target_bed@) && rect(score@)
            && matrix_ok(score@, labels_of(sb@), labels_of(tb@), mode) && models(rows@)
            == rows_for_steps(sb@, tb@, kept_steps(spec_full_path(score@))));
        if mode.gap_score <= 0 && (forall|k: int|
            0 <= k < source_bed@.len() ==> !is_gap_label((#[trigger] source_bed@[k]).mon@)) && (
        forall|k: int|
            0 <= k < target_bed@.len() ==> !is_gap_label((#[trigger] target_bed@[k]).mon@)) {
            assert forall|k: int| 1 <= k < sb@.len() implies !is_gap_label(
                (#[trigger] sb@[k]).mon@,
            ) by {
                assert(sb@.skip(1)[k - 1] == sb@[k]);
                assert(sb@.skip(1).contains(sb@[k]));
                sb@.skip(1).to_multiset_ensures();
                source_bed@.to_multiset_ensures();
                assert(sb@.skip(1).to_multiset().count(sb@[k]) > 0);
                assert(source_bed@.to_multiset().count(sb@[k]) > 0);
                assert(source_bed@.contains(sb@[k]));
                let w = choose|w: int| 0 <= w < source_bed@.len() && source_bed@[w] == sb@[k];
                assert(!is_gap_label(source_bed@[w].mon@));
            }
            assert forall|k: int| 1 <= k < tb@.len() implies !is_gap_label(
                (#[trigger] tb@[k]).mon@,
            ) by {
                assert(tb@.skip(1)[k - 1] == tb@[k]);
                assert(tb@.skip(1).contains(tb@[k]));
                tb@.skip(1).to_multiset_ensures();
                target_bed@.to_multiset_ensures();
                assert(tb@.skip(1).to_multiset().count(tb@[k]) > 0);
                assert(target_bed@.to_multiset().count(tb@[k]) > 0);
                assert(target_bed@.contains(tb@[k]));
                let w = choose|w: int| 0 <= w < target_bed@.len() && target_bed@[w] == tb@[k];
                assert(!is_gap_label(target_bed@[w].mon@));
            }
            lemma_alignment_rows_classified(sb@, tb@, score@, mode);
        }
    }
    Ok(rows)
}

} // verus!
