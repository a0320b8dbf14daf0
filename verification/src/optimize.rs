//! The local-repair optimizer: for every non-match row, look for a row
//! inside the adjacent run of gap rows whose opposite label equals this
//! row's label, slide the labeled side across (the found row becomes a
//! match, the displaced fields land on this row), and finally drop every
//! row left with gaps on both sides.

use vstd::prelude::*;

use crate::model::{AlignTag, HorScanError, MonAlignmentRow, RowModel, is_gap, is_gap_label, models, row_model, tag_wf};

verus! {

/// Tag tallies of a row stream, for observability.
#[derive(Clone, Copy, Debug, PartialEq, Eq, Structural)]
pub struct TypeCount {
    pub mth: usize,
    pub ins: usize,
    pub del: usize,
    pub mis: usize,
}

/// Forward search from row k (inclusive, k > cur) for a rescue of row
/// cur's source label: stops at the first row whose source side is
/// occupied, answers the first row whose target label equals it.
pub open spec fn fwd_target_rescue_from(s: Seq<RowModel>, cur: int, k: int) -> Option<int>
    decreases s.len() - k,
{
    if k < 0 || k >= s.len() {
        None
    } else if !is_gap_label(s[k].source_mon) {
        None
    } else if !is_gap_label(s[k].target_mon) && s[cur].source_mon == s[k].target_mon {
        Some(k)
    } else {
        fwd_target_rescue_from(s, cur, k + 1)
    }
}

/// Backward search from row k (inclusive, k < cur) for a rescue of row
/// cur's source label, stopping at the first occupied source side.
pub open spec fn bwd_target_rescue_from(s: Seq<RowModel>, cur: int, k: int) -> Option<int>
    decreases k + 1,
{
    if k < 0 || k >= s.len() {
        None
    } else if !is_gap_label(s[k].source_mon) {
        None
    } else if !is_gap_label(s[k].target_mon) && s[cur].source_mon == s[k].target_mon {
        Some(k)
    } else {
        bwd_target_rescue_from(s, cur, k - 1)
    }
}

/// The rescue row for row cur's source label: the forward find, and only
/// failing that the backward find.
pub open spec fn target_rescue(s: Seq<RowModel>, cur: int) -> Option<int> {
    match fwd_target_rescue_from(s, cur, cur + 1) {
        Some(j) => Some(j),
        None => bwd_target_rescue_from(s, cur, cur - 1),
    }
}

/// Forward search for a rescue of row cur's target label among rows whose
/// target side is a gap.
pub open spec fn fwd_source_rescue_from(s: Seq<RowModel>, cur: int, k: int) -> Option<int>
    decreases s.len() - k,
{
    if k < 0 || k >= s.len() {
        None
    } else if !is_gap_label(s[k].target_mon) {
        None
    } else if !is_gap_label(s[k].source_mon) && s[cur].target_mon == s[k].source_mon {
        Some(k)
    } else {
        fwd_source_rescue_from(s, cur, k + 1)
    }
}

/// Backward search for a rescue of row cur's target label.
pub open spec fn bwd_source_rescue_from(s: Seq<RowModel>, cur: int, k: int) -> Option<int>
    decreases k + 1,
{
    if k < 0 || k >= s.len() {
        None
    } else if !is_gap_label(s[k].target_mon) {
        None
    } else if !is_gap_label(s[k].source_mon) && s[cur].target_mon == s[k].source_mon {
        Some(k)
    } else {
        bwd_source_rescue_from(s, cur, k - 1)
    }
}

/// The rescue row for row cur's target label, forward find first.
pub open spec fn source_rescue(s: Seq<RowModel>, cur: int) -> Option<int> {
    match fwd_source_rescue_from(s, cur, cur + 1) {
        Some(j) => Some(j),
        None => bwd_source_rescue_from(s, cur, cur - 1),
    }
}

/// Swap on the source axis: row j takes row i's source-side fields and
/// becomes a match; row i takes row j's former source-side fields and is an
/// insertion if its retained target label is occupied, else both-gap.
pub open spec fn source_swap(s: Seq<RowModel>, i: int, j: int) -> Seq<RowModel> {
    let ri = s[i];
    let rj = s[j];
    let nj = RowModel {
        source: ri.source,
        source_start: ri.source_start,
        source_end: ri.source_end,
        source_mon: ri.source_mon,
        align_type: AlignTag::Mth,
        ..rj
    };
    let ni = RowModel {
        source: rj.source,
        source_start: rj.source_start,
        source_end: rj.source_end,
        source_mon: rj.source_mon,
        align_type: if !is_gap_label(ri.target_mon) {
            AlignTag::Ins
        } else {
            AlignTag::Unx
        },
        ..ri
    };
    s.update(j, nj).update(i, ni)
}

/// Swap on the target axis: row j takes row i's target-side fields and
/// becomes a match; row i takes row j's former target-side fields and is a
/// deletion if its retained source label is occupied, else both-gap.
pub open spec fn target_swap(s: Seq<RowModel>, i: int, j: int) -> Seq<RowModel> {
    let ri = s[i];
    let rj = s[j];
    let nj = RowModel {
        target: ri.target,
        target_start: ri.target_start,
        target_end: ri.target_end,
        target_mon: ri.target_mon,
        align_type: AlignTag::Mth,
        ..rj
    };
    let ni = RowModel {
        target: rj.target,
        target_start: rj.target_start,
        target_end: rj.target_end,
        target_mon: rj.target_mon,
        align_type: if !is_gap_label(ri.source_mon) {
            AlignTag::Del
        } else {
            AlignTag::Unx
        },
        ..ri
    };
    s.update(j, nj).update(i, ni)
}

/// One sweep step on row i: a match row is left alone; otherwise both
/// rescues are looked up on the incoming state, then the source-axis swap
/// is applied, then the target-axis swap.
pub open spec fn step_row(s: Seq<RowModel>, i: int) -> Seq<RowModel> {
    if s[i].align_type == AlignTag::Mth {
        s
    } else {
        let f1 = target_rescue(s, i);
        let f2 = source_rescue(s, i);
        let s1 = match f1 {
            Some(j) => source_swap(s, i, j),
            None => s,
        };
        match f2 {
            Some(j) => target_swap(s1, i, j),
            None => s1,
        }
    }
}

/// The state after sweeping rows [0, k) in file order.
pub open spec fn sweep(s: Seq<RowModel>, k: int) -> Seq<RowModel>
    decreases k,
{
    if k <= 0 {
        s
    } else {
        step_row(sweep(s, k - 1), k - 1)
    }
}

/// The rows left after dropping every both-gap row.
pub open spec fn drop_unx(s: Seq<RowModel>) -> Seq<RowModel>
    decreases s.len(),
{
    if s.len() == 0 {
        Seq::empty()
    } else if s.last().align_type != AlignTag::Unx {
        drop_unx(s.drop_last()) + seq![s.last()]
    } else {
        drop_unx(s.drop_last())
    }
}

/// How many rows carry this tag.
pub open spec fn count_tag(s: Seq<RowModel>, t: AlignTag) -> int
    decreases s.len(),
{
    if s.len() == 0 {
        0
    } else {
        count_tag(s.drop_last(), t) + if s.last().align_type == t {
            1int
        } else {
            0int
        }
    }
}

/// A forward find answers an in-range row whose source side is a gap and
/// whose target label is occupied and equals the current source label.
pub proof fn lemma_fwd_target_bounds(s: Seq<RowModel>, cur: int, k: int)
    ensures
        fwd_target_rescue_from(s, cur, k) matches Some(j) ==> k <= j < s.len() && is_gap_label(
            s[j].source_mon,
        ) && !is_gap_label(s[j].target_mon) && s[j].target_mon == s[cur].source_mon,
    decreases s.len() - k,
{
    if 0 <= k < s.len() {
        lemma_fwd_target_bounds(s, cur, k + 1);
    }
}

/// A backward find answers an in-range row with the same rescue facts.
pub proof fn lemma_bwd_target_bounds(s: Seq<RowModel>, cur: int, k: int)
    ensures
        bwd_target_rescue_from(s, cur, k) matches Some(j) ==> 0 <= j <= k && j < s.len()
            && is_gap_label(s[j].source_mon) && !is_gap_label(s[j].target_mon) && s[j].target_mon
            == s[cur].source_mon,
    decreases k + 1,
{
    if 0 <= k < s.len() {
        lemma_bwd_target_bounds(s, cur, k - 1);
    }
}

/// A forward find answers an in-range row whose target side is a gap and
/// whose source label is occupied and equals the current target label.
pub proof fn lemma_fwd_source_bounds(s: Seq<RowModel>, cur: int, k: int)
    ensures
        fwd_source_rescue_from(s, cur, k) matches Some(j) ==> k <= j < s.len() && is_gap_label(
            s[j].target_mon,
        ) && !is_gap_label(s[j].source_mon) && s[j].source_mon == s[cur].target_mon,
    decreases s.len() - k,
{
    if 0 <= k < s.len() {
        lemma_fwd_source_bounds(s, cur, k + 1);
    }
}

/// A backward find answers an in-range row with the same rescue facts.
pub proof fn lemma_bwd_source_bounds(s: Seq<RowModel>, cur: int, k: int)
    ensures
        bwd_source_rescue_from(s, cur, k) matches Some(j) ==> 0 <= j <= k && j < s.len()
            && is_gap_label(s[j].target_mon) && !is_gap_label(s[j].source_mon) && s[j].source_mon
            == s[cur].target_mon,
    decreases k + 1,
{
    if 0 <= k < s.len() {
        lemma_bwd_source_bounds(s, cur, k - 1);
    }
}

/// One sweep step keeps every row classified: a rescued row becomes a
/// match of two equal occupied labels, and a displaced row keeps the gap
/// marker on the side its fields left.
pub proof fn lemma_step_row_tag_wf(s: Seq<RowModel>, i: int)
    requires
        0 <= i < s.len(),
        forall|k: int| 0 <= k < s.len() ==> tag_wf(#[trigger] s[k]),
    ensures
        forall|k: int| 0 <= k < step_row(s, i).len() ==> tag_wf(#[trigger] step_row(s, i)[k]),
{
    lemma_fwd_target_bounds(s, i, i + 1);
    lemma_bwd_target_bounds(s, i, i - 1);
    lemma_fwd_source_bounds(s, i, i + 1);
    lemma_bwd_source_bounds(s, i, i - 1);
    if s[i].align_type != AlignTag::Mth {
        let f1 = target_rescue(s, i);
        let f2 = source_rescue(s, i);
        let s1 = match f1 {
            Some(j) => source_swap(s, i, j),
            None => s,
        };
        assert forall|k: int| 0 <= k < s1.len() implies tag_wf(#[trigger] s1[k]) by {
            match f1 {
                Some(j) => {
                    if k == i {
                        assert(s1[k] == source_swap(s, i, j)[i]);
                    } else if k == j {
                        assert(s1[k] == source_swap(s, i, j)[j]);
                    } else {
                        assert(s1[k] == s[k]);
                    }
                },
                None => {},
            }
        }
        match f2 {
            Some(j2) => {
                assert(s1.len() == s.len());
                assert(s1[j2] == s[j2]);
                assert(s1[i].target_mon == s[i].target_mon);
                let s2 = target_swap(s1, i, j2);
                assert forall|k: int| 0 <= k < s2.len() implies tag_wf(#[trigger] s2[k]) by {
                    if k == i {
                        assert(s2[k] == target_swap(s1, i, j2)[i]);
                    } else if k == j2 {
                        assert(s2[k] == target_swap(s1, i, j2)[j2]);
                    } else {
                        assert(s2[k] == s1[k]);
                    }
                }
            },
            None => {},
        }
    }
}

/// A whole sweep keeps every row classified.
pub proof fn lemma_sweep_tag_wf(s: Seq<RowModel>, k: int)
    requires
        k <= s.len(),
        forall|p: int| 0 <= p < s.len() ==> tag_wf(#[trigger] s[p]),
    ensures
        forall|p: int| 0 <= p < sweep(s, k).len() ==> tag_wf(#[trigger] sweep(s, k)[p]),
    decreases k,
{
    if k > 0 {
        lemma_sweep_tag_wf(s, k - 1);
        lemma_sweep_len(s, k - 1);
        lemma_step_row_tag_wf(sweep(s, k - 1), k - 1);
    }
}

/// Dropping the both-gap rows keeps every remaining row classified.
pub proof fn lemma_drop_unx_tag_wf(s: Seq<RowModel>)
    requires
        forall|p: int| 0 <= p < s.len() ==> tag_wf(#[trigger] s[p]),
    ensures
        forall|p: int| 0 <= p < drop_unx(s).len() ==> tag_wf(#[trigger] drop_unx(s)[p]),
    decreases s.len(),
{
    if s.len() > 0 {
        assert(forall|p: int| 0 <= p < s.drop_last().len() ==> tag_wf(#[trigger] s.drop_last()[p]));
        lemma_drop_unx_tag_wf(s.drop_last());
        assert forall|p: int| 0 <= p < drop_unx(s).len() implies tag_wf(
            #[trigger] drop_unx(s)[p],
        ) by {
            if s.last().align_type != AlignTag::Unx {
                if p < drop_unx(s.drop_last()).len() {
                    assert(drop_unx(s)[p] == drop_unx(s.drop_last())[p]);
                } else {
                    assert(drop_unx(s)[p] == s.last());
                }
            } else {
                assert(drop_unx(s)[p] == drop_unx(s.drop_last())[p]);
            }
        }
    }
}

/// A row stream in which no non-match row has an eligible rescue on either
/// side is left unchanged by the sweep.
pub proof fn lemma_sweep_fixed_point(s: Seq<RowModel>, k: int)
    requires
        k <= s.len(),
        forall|i: int|
            0 <= i < s.len() ==> (#[trigger] s[i]).align_type == AlignTag::Mth || (target_rescue(
                s,
                i,
            ) is None && source_rescue(s, i) is None),
    ensures
        sweep(s, k) == s,
    decreases k,
{
    if k > 0 {
        lemma_sweep_fixed_point(s, k - 1);
    }
}

/// A row stream without both-gap rows is left unchanged by the drop.
pub proof fn lemma_drop_unx_fixed_point(s: Seq<RowModel>)
    requires
        forall|i: int| 0 <= i < s.len() ==> (#[trigger] s[i]).align_type != AlignTag::Unx,
    ensures
        drop_unx(s) == s,
    decreases s.len(),
{
    if s.len() > 0 {
        assert(forall|i: int|
            0 <= i < s.drop_last().len() ==> (#[trigger] s.drop_last()[i]).align_type
                != AlignTag::Unx);
        lemma_drop_unx_fixed_point(s.drop_last());
        assert(drop_unx(s) =~= s);
    }
}

/// A row stream in which no non-match row has an eligible rescue and no row
/// is both-gap is a fixed point of the whole optimizer pass, so a second
/// pass over it changes neither the rows nor any tag count.
pub proof fn lemma_optimize_fixed_point(s: Seq<RowModel>)
    requires
        forall|i: int|
            0 <= i < s.len() ==> (#[trigger] s[i]).align_type == AlignTag::Mth || (target_rescue(
                s,
                i,
            ) is None && source_rescue(s, i) is None),
        forall|i: int| 0 <= i < s.len() ==> (#[trigger] s[i]).align_type != AlignTag::Unx,
    ensures
        drop_unx(sweep(s, s.len() as int)) == s,
{
    lemma_sweep_fixed_point(s, s.len() as int);
    lemma_drop_unx_fixed_point(s);
}

/// Every row the optimizer leaves in the stream is still classified: a
/// match pairs equal occupied labels, a mismatch different occupied labels,
/// a deletion has a target-side gap, an insertion a source-side gap.
pub proof fn lemma_optimized_rows_tag_wf(s: Seq<RowModel>)
    requires
        forall|p: int| 0 <= p < s.len() ==> tag_wf(#[trigger] s[p]),
    ensures
        forall|p: int|
            0 <= p < drop_unx(sweep(s, s.len() as int)).len() ==> tag_wf(
                #[trigger] drop_unx(sweep(s, s.len() as int))[p],
            ),
{
    lemma_sweep_tag_wf(s, s.len() as int);
    lemma_drop_unx_tag_wf(sweep(s, s.len() as int));
}

/// A sweep step never changes the number of rows.
pub proof fn lemma_step_row_len(s: Seq<RowModel>, i: int)
    requires
        0 <= i < s.len(),
    ensures
        step_row(s, i).len() == s.len(),
{
    lemma_fwd_target_bounds(s, i, i + 1);
    lemma_bwd_target_bounds(s, i, i - 1);
    lemma_fwd_source_bounds(s, i, i + 1);
    lemma_bwd_source_bounds(s, i, i - 1);
}

/// A sweep never changes the number of rows.
pub proof fn lemma_sweep_len(s: Seq<RowModel>, k: int)
    requires
        k <= s.len(),
    ensures
        sweep(s, k).len() == s.len(),
    decreases k,
{
    if k > 0 {
        lemma_sweep_len(s, k - 1);
        lemma_step_row_len(sweep(s, k - 1), k - 1);
    }
}

/// Find, for a row whose source label is displaced, the rescue rows: the
/// forward find (first, if any) then the backward find, each the first row
/// inside the contiguous source-gap run whose target label equals this
/// row's source label.
pub fn find_useful_target_match(blast: &Vec<MonAlignmentRow>, current_index: usize) -> (r: Result<
    Vec<usize>,
    HorScanError,
>)
    requires
        current_index < blast@.len(),
    ensures
        r is Ok,
        ({
            let s = models(blast@);
            let f = fwd_target_rescue_from(s, current_index as int, current_index + 1);
            let b = bwd_target_rescue_from(s, current_index as int, current_index - 1);
            let ids = (r->Ok_0)@;
            &&& (match f {
                Some(j) => ids.len() >= 1 && ids[0] as int == j && current_index < j < s.len(),
                None => true,
            })
            &&& (match (f, b) {
                (Some(_), Some(j)) => ids.len() == 2 && ids[1] as int == j && j < current_index,
                (None, Some(j)) => ids.len() == 1 && ids[0] as int == j && j < current_index,
                (Some(_), None) => ids.len() == 1,
                (None, None) => ids.len() == 0,
            })
        }),
{
    let ghost s = models(blast@);
    let ghost cur = current_index as int;
    let mut useful_id: Vec<usize> = Vec::new();
    let n = blast.len();

    let mut k = current_index + 1;
    let mut fwd: Option<usize> = None;
    let mut scanning: usize = 1;
    while scanning == 1 && k < n
        invariant
            s == models(blast@),
            n == blast@.len(),
            cur == current_index as int,
            cur < n,
            cur < k <= n,
            scanning <= 1,
            scanning == 1 ==> fwd is None && fwd_target_rescue_from(s, cur, cur + 1)
                == fwd_target_rescue_from(s, cur, k as int),
            scanning == 0 ==> (match fwd {
                Some(j) => fwd_target_rescue_from(s, cur, cur + 1) == Some(j as int) && cur < j < n,
                None => fwd_target_rescue_from(s, cur, cur + 1) is None,
            }),
        decreases n - k, scanning,
    {
        proof {
            assert(s[k as int] == row_model(blast@[k as int]));
        }
        if !is_gap(&blast[k].source_mon) {
            scanning = 0;
        } else if !is_gap(&blast[k].target_mon) && blast[current_index].source_mon
            == blast[k].target_mon {
            proof {
                assert(s[cur] == row_model(blast@[cur]));
            }
            fwd = Some(k);
            scanning = 0;
        } else {
            k = k + 1;
        }
    }
    proof {
        if scanning == 1 {
            assert(fwd_target_rescue_from(s, cur, k as int) is None);
        }
    }
    if let Some(j) = fwd {
        useful_id.push(j);
    }

    let mut bwd: Option<usize> = None;
    let mut k = current_index;
    let mut scanning: usize = 1;
    while scanning == 1 && k > 0
        invariant
            s == models(blast@),
            n == blast@.len(),
            cur == current_index as int,
            cur < n,
            k <= current_index,
            scanning <= 1,
            scanning == 1 ==> bwd is None && bwd_target_rescue_from(s, cur, cur - 1)
                == bwd_target_rescue_from(s, cur, k as int - 1),
            scanning == 0 ==> (match bwd {
                Some(j) => bwd_target_rescue_from(s, cur, cur - 1) == Some(j as int) && j < cur,
                None => bwd_target_rescue_from(s, cur, cur - 1) is None,
            }),
        decreases k, scanning,
    {
        k = k - 1;
        proof {
            assert(s[k as int] == row_model(blast@[k as int]));
        }
        if !is_gap(&blast[k].source_mon) {
            scanning = 0;
        } else if !is_gap(&blast[k].target_mon) && blast[current_index].source_mon
            == blast[k].target_mon {
            proof {
                assert(s[cur] == row_model(blast@[cur]));
            }
            bwd = Some(k);
            scanning = 0;
        }
    }
    proof {
        if scanning == 1 {
            assert(bwd_target_rescue_from(s, cur, k as int - 1) is None);
        }
    }
    if let Some(j) = bwd {
        useful_id.push(j);
    }
    Ok(useful_id)
}

/// Find, for a row whose target label is displaced, the rescue rows inside
/// the contiguous target-gap run whose source label equals this row's
/// target label: the forward find (first, if any) then the backward find.
pub fn find_useful_source_match(blast: &Vec<MonAlignmentRow>, current_index: usize) -> (r: Result<
    Vec<usize>,
    HorScanError,
>)
    requires
        current_index < blast@.len(),
    ensures
        r is Ok,
        ({
            let s = models(blast@);
            let f = fwd_source_rescue_from(s, current_index as int, current_index + 1);
            let b = bwd_source_rescue_from(s, current_index as int, current_index - 1);
            let ids = (r->Ok_0)@;
            &&& (match f {
                Some(j) => ids.len() >= 1 && ids[0] as int == j && current_index < j < s.len(),
                None => true,
            })
            &&& (match (f, b) {
                (Some(_), Some(j)) => ids.len() == 2 && ids[1] as int == j && j < current_index,
                (None, Some(j)) => ids.len() == 1 && ids[0] as int == j && j < current_index,
                (Some(_), None) => ids.len() == 1,
                (None, None) => ids.len() == 0,
            })
        }),
{
    let ghost s = models(blast@);
    let ghost cur = current_index as int;
    let mut useful_id: Vec<usize> = Vec::new();
    let n = blast.len();

    let mut k = current_index + 1;
    let mut fwd: Option<usize> = None;
    let mut scanning: usize = 1;
    while scanning == 1 && k < n
        invariant
            s == models(blast@),
            n == blast@.len(),
            cur == current_index as int,
            cur < n,
            cur < k <= n,
            scanning <= 1,
            scanning == 1 ==> fwd is None && fwd_source_rescue_from(s, cur, cur + 1)
                == fwd_source_rescue_from(s, cur, k as int),
            scanning == 0 ==> (match fwd {
                Some(j) => fwd_source_rescue_from(s, cur, cur + 1) == Some(j as int) && cur < j < n,
                None => fwd_source_rescue_from(s, cur, cur + 1) is None,
            }),
        decreases n - k, scanning,
    {
        proof {
            assert(s[k as int] == row_model(blast@[k as int]));
        }
        if !is_gap(&blast[k].target_mon) {
            scanning = 0;
        } else if !is_gap(&blast[k].source_mon) && blast[current_index].target_mon
            == blast[k].source_mon {
            proof {
                assert(s[cur] == row_model(blast@[cur]));
            }
            fwd = Some(k);
            scanning = 0;
        } else {
            k = k + 1;
        }
    }
    proof {
        if scanning == 1 {
            assert(fwd_source_rescue_from(s, cur, k as int) is None);
        }
    }
    if let Some(j) = fwd {
        useful_id.push(j);
    }

    let mut bwd: Option<usize> = None;
    let mut k = current_index;
    let mut scanning: usize = 1;
    while scanning == 1 && k > 0
        invariant
            s == models(blast@),
            n == blast@.len(),
            cur == current_index as int,
            cur < n,
            k <= current_index,
            scanning <= 1,
            scanning == 1 ==> bwd is None && bwd_source_rescue_from(s, cur, cur - 1)
                == bwd_source_rescue_from(s, cur, k as int - 1),
            scanning == 0 ==> (match bwd {
                Some(j) => bwd_source_rescue_from(s, cur, cur - 1) == Some(j as int) && j < cur,
                None => bwd_source_rescue_from(s, cur, cur - 1) is None,
            }),
        decreases k, scanning,
    {
        k = k - 1;
        proof {
            assert(s[k as int] == row_model(blast@[k as int]));
        }
        if !is_gap(&blast[k].target_mon) {
            scanning = 0;
        } else if !is_gap(&blast[k].source_mon) && blast[current_index].target_mon
            == blast[k].source_mon {
            proof {
                assert(s[cur] == row_model(blast@[cur]));
            }
            bwd = Some(k);
            scanning = 0;
        }
    }
    proof {
        if scanning == 1 {
            assert(bwd_source_rescue_from(s, cur, k as int - 1) is None);
        }
    }
    if let Some(j) = bwd {
        useful_id.push(j);
    }
    Ok(useful_id)
}

/// Apply the source-axis swap of rows i and j.
pub fn swap_blast_line_source(blast: &mut Vec<MonAlignmentRow>, i: usize, j: usize) -> (r: Result<
    (),
    HorScanError,
>)
    requires
        i < old(blast)@.len(),
        j < old(blast)@.len(),
        i != j,
    ensures
        r is Ok,
        models(final(blast)@) == source_swap(models(old(blast)@), i as int, j as int),
{
    let ghost s0 = models(blast@);
    let new_tag = if !is_gap(&blast[i].target_mon) {
        AlignTag::Ins
    } else {
        AlignTag::Unx
    };
    let new_j = MonAlignmentRow {
        source: blast[i].source.clone(),
        source_start: blast[i].source_start,
        source_end: blast[i].source_end,
        source_mon: blast[i].source_mon.clone(),
        target: blast[j].target.clone(),
        target_start: blast[j].target_start,
        target_end: blast[j].target_end,
        target_mon: blast[j].target_mon.clone(),
        align_type: AlignTag::Mth,
    };
    let new_i = MonAlignmentRow {
        source: blast[j].source.clone(),
        source_start: blast[j].source_start,
        source_end: blast[j].source_end,
        source_mon: blast[j].source_mon.clone(),
        target: blast[i].target.clone(),
        target_start: blast[i].target_start,
        target_end: blast[i].target_end,
        target_mon: blast[i].target_mon.clone(),
        align_type: new_tag,
    };
    blast.set(j, new_j);
    blast.set(i, new_i);
    proof {
        assert(models(blast@) =~= source_swap(s0, i as int, j as int));
    }
    Ok(())
}

/// Apply the target-axis swap of rows i and j.
pub fn swap_blast_line_target(blast: &mut Vec<MonAlignmentRow>, i: usize, j: usize) -> (r: Result<
    (),
    HorScanError,
>)
    requires
        i < old(blast)@.len(),
        j < old(blast)@.len(),
        i != j,
    ensures
        r is Ok,
        models(final(blast)@) == target_swap(models(old(blast)@), i as int, j as int),
{
    let ghost s0 = models(blast@);
    let new_tag = if !is_gap(&blast[i].source_mon) {
        AlignTag::Del
    } else {
        AlignTag::Unx
    };
    let new_j = MonAlignmentRow {
        source: blast[j].source.clone(),
        source_start: blast[j].source_start,
        source_end: blast[j].source_end,
        source_mon: blast[j].source_mon.clone(),
        target: blast[i].target.clone(),
        target_start: blast[i].target_start,
        target_end: blast[i].target_end,
        target_mon: blast[i].target_mon.clone(),
        align_type: AlignTag::Mth,
    };
    let new_i = MonAlignmentRow {
        source: blast[i].source.clone(),
        source_start: blast[i].source_start,
        source_end: blast[i].source_end,
        source_mon: blast[i].source_mon.clone(),
        target: blast[j].target.clone(),
        target_start: blast[j].target_start,
        target_end: blast[j].target_end,
        target_mon: blast[j].target_mon.clone(),
        align_type: new_tag,
    };
    blast.set(j, new_j);
    blast.set(i, new_i);
    proof {
        assert(models(blast@) =~= target_swap(s0, i as int, j as int));
    }
    Ok(())
}

/// Tally the four output tags of a row stream.
pub fn count_types(rows: &Vec<MonAlignmentRow>) -> (c: TypeCount)
    ensures
        c.mth as int == count_tag(models(rows@), AlignTag::Mth),
        c.ins as int == count_tag(models(rows@), AlignTag::Ins),
        c.del as int == count_tag(models(rows@), AlignTag::Del),
        c.mis as int == count_tag(models(rows@), AlignTag::Mis),
{
    let ghost s = models(rows@);
    let mut c = TypeCount { mth: 0, ins: 0, del: 0, mis: 0 };
    let mut k: usize = 0;
    while k < rows.len()
        invariant
            s == models(rows@),
            k <= rows@.len(),
            c.mth as int == count_tag(s.subrange(0, k as int), AlignTag::Mth),
            c.ins as int == count_tag(s.subrange(0, k as int), AlignTag::Ins),
            c.del as int == count_tag(s.subrange(0, k as int), AlignTag::Del),
            c.mis as int == count_tag(s.subrange(0, k as int), AlignTag::Mis),
            c.mth <= k,
            c.ins <= k,
            c.del <= k,
            c.mis <= k,
        decreases rows@.len() - k,
    {
        match rows[k].align_type {
            AlignTag::Mth => {
                c.mth = c.mth + 1;
            },
            AlignTag::Ins => {
                c.ins = c.ins + 1;
            },
            AlignTag::Del => {
                c.del = c.del + 1;
            },
            AlignTag::Mis => {
                c.mis = c.mis + 1;
            },
            AlignTag::Unx => {},
        }
        proof {
            assert(s.subrange(0, k + 1).drop_last() =~= s.subrange(0, k as int));
        }
        k = k + 1;
    }
    proof {
        assert(s.subrange(0, rows@.len() as int) =~= s);
    }
    c
}

/// One optimizer pass over the rows, in file order, followed by the drop
/// of every both-gap row. The result is exactly the sweep of the input with
/// the transient rows removed, and no both-gap row survives.
pub fn optimize_alignment_rows(blast: Vec<MonAlignmentRow>) -> (r: Vec<MonAlignmentRow>)
    ensures
        models(r@) == drop_unx(sweep(models(blast@), blast@.len() as int)),
        forall|k: int| 0 <= k < r@.len() ==> (#[trigger] r@[k]).align_type != AlignTag::Unx,
{
    let ghost s0 = models(blast@);
    let n = blast.len();
    let mut blast = blast;
    let mut i: usize = 0;
    while i < n
        invariant
            n == s0.len(),
            blast@.len() == n,
            models(blast@) == sweep(s0, i as int),
            i <= n,
        decreases n - i,
    {
        let ghost pre = models(blast@);
        if blast[i].align_type == AlignTag::Mth {
            proof {
                assert(step_row(pre, i as int) == pre);
            }
        } else {
            let source_ids = match find_useful_target_match(&blast, i) {
                Ok(v) => v,
                Err(_) => Vec::new(),
            };
            let target_ids = match find_useful_source_match(&blast, i) {
                Ok(v) => v,
                Err(_) => Vec::new(),
            };
            let ghost f1 = target_rescue(pre, i as int);
            let ghost f2 = source_rescue(pre, i as int);
            if source_ids.len() > 0 {
                let j = source_ids[0];
                let _ = swap_blast_line_source(&mut blast, i, j);
                proof {
                    assert(f1 == Some(j as int));
                    assert(models(blast@).len() == pre.len());
                    assert(blast@.len() == n);
                }
            } else {
                proof {
                    assert(f1 is None);
                }
            }
            if target_ids.len() > 0 {
                let j = target_ids[0];
                let _ = swap_blast_line_target(&mut blast, i, j);
                proof {
                    assert(f2 == Some(j as int));
                }
            } else {
                proof {
                    assert(f2 is None);
                }
            }
            proof {
                assert(models(blast@) == step_row(pre, i as int));
            }
        }
        i = i + 1;
        proof {
            assert(models(blast@) == sweep(s0, i as int));
        }
    }
    let ghost fin = models(blast@);
    let mut out: Vec<MonAlignmentRow> = Vec::new();
    let mut k: usize = 0;
    while k < n
        invariant
            n == blast@.len(),
            fin == models(blast@),
            k <= n,
            models(out@) == drop_unx(fin.subrange(0, k as int)),
            forall|p: int| 0 <= p < out@.len() ==> (#[trigger] out@[p]).align_type != AlignTag::Unx,
        decreases n - k,
    {
        let keep = match blast[k].align_type {
            AlignTag::Unx => false,
            _ => true,
        };
        proof {
            assert(fin.subrange(0, k + 1).drop_last() =~= fin.subrange(0, k as int));
        }
        if keep {
            let row = MonAlignmentRow {
                source: blast[k].source.clone(),
                source_start: blast[k].source_start,
                source_end: blast[k].source_end,
                source_mon: blast[k].source_mon.clone(),
                target: blast[k].target.clone(),
                target_start: blast[k].target_start,
                target_end: blast[k].target_end,
                target_mon: blast[k].target_mon.clone(),
                align_type: blast[k].align_type,
            };
            out.push(row);
            proof {
                assert(row_model(out@.last()) == fin[k as int]);
                assert(models(out@) =~= drop_unx(fin.subrange(0, k + 1)));
            }
        }
        k = k + 1;
    }
    proof {
        assert(fin.subrange(0, n as int) =~= fin);
    }
    out
}

} // verus!
