//! The path extractor: picks the alignment end point with free end-gaps
//! (scanning the last row and column for a score above the corner, trimming
//! exactly one axis), then backtraces through the matrix, preferring the
//! diagonal, then the up, then the left predecessor on ties, and finally
//! walks any remaining leading axis down to the origin.
//!
//! A step is (source index, target index, kind) with kind 0 a diagonal
//! move, kind 1 consuming a source element, kind 2 consuming a target
//! element. The path is ordered from the end point back to the start.

use vstd::prelude::*;

use crate::model::HorScanError;

verus! {

/// The score at (i, j).
pub open spec fn cell(mat: Seq<Vec<i64>>, i: int, j: int) -> int {
    mat[i]@[j] as int
}

/// A non-degenerate rectangular matrix.
pub open spec fn rect(mat: Seq<Vec<i64>>) -> bool {
    &&& mat.len() >= 1
    &&& mat[0]@.len() >= 1
    &&& forall|i: int| 0 <= i < mat.len() ==> (#[trigger] mat[i])@.len() == mat[0]@.len()
}

/// Best (score, row index) after scanning rows [0, k) of the last column,
/// seeded with the bottom-right corner; a strictly greater score moves the
/// best, so the first occurrence of the maximum wins.
pub open spec fn col_best(mat: Seq<Vec<i64>>, k: int) -> (int, int)
    decreases k,
{
    let i_last = mat.len() - 1;
    let j_last = mat[0]@.len() - 1;
    if k <= 0 {
        (cell(mat, i_last, j_last), i_last)
    } else {
        let p = col_best(mat, k - 1);
        if cell(mat, k - 1, j_last) > p.0 {
            (cell(mat, k - 1, j_last), k - 1)
        } else {
            p
        }
    }
}

/// Best (score, column index) after scanning columns [0, k) of the last
/// row, seeded with the result of the full last-column scan.
pub open spec fn row_best(mat: Seq<Vec<i64>>, k: int) -> (int, int)
    decreases k,
{
    let i_last = mat.len() - 1;
    let j_last = mat[0]@.len() - 1;
    if k <= 0 {
        (col_best(mat, i_last).0, j_last)
    } else {
        let p = row_best(mat, k - 1);
        if cell(mat, i_last, k - 1) > p.0 {
            (cell(mat, i_last, k - 1), k - 1)
        } else {
            p
        }
    }
}

/// The row index the end-point scan proposes.
pub open spec fn end_max_i(mat: Seq<Vec<i64>>) -> int {
    col_best(mat, mat.len() - 1).1
}

/// The column index the end-point scan proposes.
pub open spec fn end_max_j(mat: Seq<Vec<i64>>) -> int {
    row_best(mat, mat[0]@.len() - 1).1
}

/// The cell the backtrace starts from, after the end-gap trim: the corner
/// itself when neither scan improved on it; otherwise the better of the
/// two candidates, the row trim winning only with a strictly greater score.
pub open spec fn start_cell(mat: Seq<Vec<i64>>) -> (int, int) {
    let i = mat.len() - 1;
    let j = mat[0]@.len() - 1;
    let mi = end_max_i(mat);
    let mj = end_max_j(mat);
    if mi == i && mj == j {
        (i, j)
    } else if cell(mat, mi, j) > cell(mat, i, mj) {
        (mi, j)
    } else {
        (i, mj)
    }
}

/// Source-consuming trim steps (hi, j), (hi-1, j), ..., (lo+1, j).
pub open spec fn desc_rows(j: int, hi: int, lo: int) -> Seq<(int, int, int)>
    decreases hi - lo,
{
    if hi <= lo {
        Seq::empty()
    } else {
        seq![(hi, j, 1int)] + desc_rows(j, hi - 1, lo)
    }
}

/// Target-consuming trim steps (i, hi), (i, hi-1), ..., (i, lo+1).
pub open spec fn desc_cols(i: int, hi: int, lo: int) -> Seq<(int, int, int)>
    decreases hi - lo,
{
    if hi <= lo {
        Seq::empty()
    } else {
        seq![(i, hi, 2int)] + desc_cols(i, hi - 1, lo)
    }
}

/// The leading remainder down the source axis: (i, 0), ..., (0, 0).
pub open spec fn walk_rows(i: int) -> Seq<(int, int, int)>
    decreases i,
{
    if i < 0 {
        Seq::empty()
    } else if i == 0 {
        seq![(0int, 0int, 1int)]
    } else {
        seq![(i, 0int, 1int)] + walk_rows(i - 1)
    }
}

/// The leading remainder along the target axis: (0, j), ..., (0, 0).
pub open spec fn walk_cols(j: int) -> Seq<(int, int, int)>
    decreases j,
{
    if j < 0 {
        Seq::empty()
    } else if j == 0 {
        seq![(0int, 0int, 2int)]
    } else {
        seq![(0int, j, 2int)] + walk_cols(j - 1)
    }
}

/// The predecessor the backtrace takes from (i, j): the strict maximum of
/// the diagonal, up and left neighbors, ties broken in that fixed order.
pub open spec fn back_kind(mat: Seq<Vec<i64>>, i: int, j: int) -> int {
    let diag = cell(mat, i - 1, j - 1);
    let up = cell(mat, i - 1, j);
    let left = cell(mat, i, j - 1);
    if diag >= up && diag >= left {
        0
    } else if up >= left {
        1
    } else {
        2
    }
}

/// The steps the backtrace records after leaving (i, j): each predecessor
/// cell with the kind of the move that reached it, except a cell on an
/// axis, where the walk switches to the leading remainder (which records
/// the axis cells, origin included, as gap steps).
pub open spec fn tail_path(mat: Seq<Vec<i64>>, i: int, j: int) -> Seq<(int, int, int)>
    decreases i + j,
{
    if i > 0 && j > 0 {
        let d = back_kind(mat, i, j);
        let ni = if d == 2 {
            i
        } else {
            i - 1
        };
        let nj = if d == 1 {
            j
        } else {
            j - 1
        };
        let rest = tail_path(mat, ni, nj);
        if ni > 0 && nj > 0 {
            seq![(ni, nj, d)] + rest
        } else {
            rest
        }
    } else if i > 0 {
        walk_rows(i)
    } else if j > 0 {
        walk_cols(j)
    } else {
        Seq::empty()
    }
}

/// The whole path, end point first: the end-gap trim of one axis (possibly
/// empty), the starting cell recorded as a diagonal step, then the
/// backtrace with its leading remainder.
pub open spec fn spec_full_path(mat: Seq<Vec<i64>>) -> Seq<(int, int, int)> {
    let i = mat.len() - 1;
    let j = mat[0]@.len() - 1;
    let mi = end_max_i(mat);
    let mj = end_max_j(mat);
    let s = start_cell(mat);
    let trim = if mi == i && mj == j {
        Seq::<(int, int, int)>::empty()
    } else if cell(mat, mi, j) > cell(mat, i, mj) {
        desc_rows(j, i, mi)
    } else {
        desc_cols(i, j, mj)
    };
    trim + seq![(s.0, s.1, 0int)] + tail_path(mat, s.0, s.1)
}

/// An executable path as mathematical triples.
pub open spec fn view_path(p: Seq<(usize, usize, usize)>) -> Seq<(int, int, int)> {
    p.map_values(|t: (usize, usize, usize)| (t.0 as int, t.1 as int, t.2 as int))
}

/// Removing one more index from the bottom of a row trim appends that
/// index's step.
proof fn lemma_desc_rows_snoc(j: int, hi: int, lo: int)
    requires
        lo <= hi,
    ensures
        desc_rows(j, hi, lo - 1) == desc_rows(j, hi, lo) + seq![(lo, j, 1int)],
    decreases hi - lo,
{
    if hi == lo {
        assert(desc_rows(j, hi - 1, lo - 1) =~= Seq::<(int, int, int)>::empty());
        assert(desc_rows(j, hi, lo - 1) =~= desc_rows(j, hi, lo) + seq![(lo, j, 1int)]);
    } else {
        lemma_desc_rows_snoc(j, hi - 1, lo);
        assert(desc_rows(j, hi, lo - 1) == seq![(hi, j, 1int)] + desc_rows(j, hi - 1, lo - 1));
        assert(desc_rows(j, hi, lo - 1) =~= desc_rows(j, hi, lo) + seq![(lo, j, 1int)]);
    }
}

/// Removing one more index from the end of a column trim appends that
/// index's step.
proof fn lemma_desc_cols_snoc(i: int, hi: int, lo: int)
    requires
        lo <= hi,
    ensures
        desc_cols(i, hi, lo - 1) == desc_cols(i, hi, lo) + seq![(i, lo, 2int)],
    decreases hi - lo,
{
    if hi == lo {
        assert(desc_cols(i, hi - 1, lo - 1) =~= Seq::<(int, int, int)>::empty());
        assert(desc_cols(i, hi, lo - 1) =~= desc_cols(i, hi, lo) + seq![(i, lo, 2int)]);
    } else {
        lemma_desc_cols_snoc(i, hi - 1, lo);
        assert(desc_cols(i, hi, lo - 1) == seq![(i, hi, 2int)] + desc_cols(i, hi - 1, lo - 1));
        assert(desc_cols(i, hi, lo - 1) =~= desc_cols(i, hi, lo) + seq![(i, lo, 2int)]);
    }
}

/// How many steps of a path have this kind.
pub open spec fn count_kind(p: Seq<(int, int, int)>, d: int) -> int
    decreases p.len(),
{
    if p.len() == 0 {
        0
    } else {
        count_kind(p.drop_last(), d) + if p.last().2 == d {
            1int
        } else {
            0int
        }
    }
}

/// The column scan proposes a row index inside the matrix.
pub proof fn lemma_col_best_bounds(mat: Seq<Vec<i64>>, k: int)
    requires
        rect(mat),
        k <= mat.len() - 1,
    ensures
        0 <= col_best(mat, k).1 < mat.len(),
    decreases k,
{
    if k > 0 {
        lemma_col_best_bounds(mat, k - 1);
    }
}

/// The row scan proposes a column index inside the matrix.
pub proof fn lemma_row_best_bounds(mat: Seq<Vec<i64>>, k: int)
    requires
        rect(mat),
        k <= mat[0]@.len() - 1,
    ensures
        0 <= row_best(mat, k).1 < mat[0]@.len(),
    decreases k,
{
    if k > 0 {
        lemma_row_best_bounds(mat, k - 1);
    }
}

/// The column scan answers the score of the cell it proposes, never below
/// the corner, and strictly above it whenever it moved off the corner.
pub proof fn lemma_col_best_cell(mat: Seq<Vec<i64>>, k: int)
    requires
        rect(mat),
        k <= mat.len() - 1,
    ensures
        col_best(mat, k).0 == cell(mat, col_best(mat, k).1, mat[0]@.len() - 1),
        col_best(mat, k).0 >= cell(mat, mat.len() - 1, mat[0]@.len() - 1),
        col_best(mat, k).1 != mat.len() - 1 ==> col_best(mat, k).0 > cell(
            mat,
            mat.len() - 1,
            mat[0]@.len() - 1,
        ),
    decreases k,
{
    if k > 0 {
        lemma_col_best_cell(mat, k - 1);
    }
}

/// The row scan answers the score of the cell it proposes whenever it moved
/// off the corner, and then strictly above the corner.
pub proof fn lemma_row_best_cell(mat: Seq<Vec<i64>>, k: int)
    requires
        rect(mat),
        k <= mat[0]@.len() - 1,
    ensures
        row_best(mat, k).0 >= cell(mat, mat.len() - 1, mat[0]@.len() - 1),
        row_best(mat, k).1 != mat[0]@.len() - 1 ==> row_best(mat, k).0 == cell(
            mat,
            mat.len() - 1,
            row_best(mat, k).1,
        ) && row_best(mat, k).0 > cell(mat, mat.len() - 1, mat[0]@.len() - 1),
    decreases k,
{
    if k > 0 {
        lemma_row_best_cell(mat, k - 1);
    } else {
        lemma_col_best_cell(mat, mat.len() - 1);
    }
}

/// Every diagonal step the backtrace records pairs two interior indices.
pub proof fn lemma_tail_diag_interior(mat: Seq<Vec<i64>>, i: int, j: int)
    requires
        0 <= i,
        0 <= j,
    ensures
        forall|k: int|
            0 <= k < tail_path(mat, i, j).len() && (#[trigger] tail_path(mat, i, j)[k]).2 == 0
                ==> tail_path(mat, i, j)[k].0 >= 1 && tail_path(mat, i, j)[k].1 >= 1,
    decreases i + j,
{
    let t = tail_path(mat, i, j);
    if i > 0 && j > 0 {
        let d = back_kind(mat, i, j);
        let ni = if d == 2 {
            i
        } else {
            i - 1
        };
        let nj = if d == 1 {
            j
        } else {
            j - 1
        };
        lemma_tail_diag_interior(mat, ni, nj);
        let rest = tail_path(mat, ni, nj);
        if ni > 0 && nj > 0 {
            assert forall|k: int|
                0 <= k < t.len() && (#[trigger] t[k]).2 == 0 implies t[k].0 >= 1 && t[k].1
                >= 1 by {
                if k == 0 {
                    assert(t[k] == (ni, nj, d));
                } else {
                    assert(t[k] == rest[k - 1]);
                }
            }
        } else {
            assert forall|k: int|
                0 <= k < t.len() && (#[trigger] t[k]).2 == 0 implies t[k].0 >= 1 && t[k].1
                >= 1 by {
                assert(t[k] == rest[k]);
            }
        }
    } else if i > 0 {
        lemma_walk_rows_index(i);
    } else if j > 0 {
        lemma_walk_cols_index(j);
    }
}

/// Every step of a source-axis remainder walk is on the axis, in bounds,
/// and a source-consuming step.
proof fn lemma_walk_rows_props(i: int)
    ensures
        forall|k: int|
            0 <= k < walk_rows(i).len() ==> 0 <= (#[trigger] walk_rows(i)[k]).0 <= i
                && walk_rows(i)[k].1 == 0 && walk_rows(i)[k].2 == 1,
    decreases i,
{
    if i > 0 {
        lemma_walk_rows_props(i - 1);
        assert forall|k: int| 0 <= k < walk_rows(i).len() implies 0 <= (#[trigger] walk_rows(i)[k]).0
            <= i && walk_rows(i)[k].1 == 0 && walk_rows(i)[k].2 == 1 by {
            if k == 0 {
                assert(walk_rows(i)[k] == (i, 0int, 1int));
            } else {
                assert(walk_rows(i)[k] == walk_rows(i - 1)[k - 1]);
            }
        }
    }
}

/// Every step of a target-axis remainder walk is on the axis, in bounds,
/// and a target-consuming step.
proof fn lemma_walk_cols_props(j: int)
    ensures
        forall|k: int|
            0 <= k < walk_cols(j).len() ==> (#[trigger] walk_cols(j)[k]).0 == 0 && 0 <= walk_cols(
                j,
            )[k].1 <= j && walk_cols(j)[k].2 == 2,
    decreases j,
{
    if j > 0 {
        lemma_walk_cols_props(j - 1);
        assert forall|k: int| 0 <= k < walk_cols(j).len() implies (#[trigger] walk_cols(j)[k]).0
            == 0 && 0 <= walk_cols(j)[k].1 <= j && walk_cols(j)[k].2 == 2 by {
            if k == 0 {
                assert(walk_cols(j)[k] == (0int, j, 2int));
            } else {
                assert(walk_cols(j)[k] == walk_cols(j - 1)[k - 1]);
            }
        }
    }
}

/// Every step of a row trim stays between the trim bounds on the last
/// column and consumes a source element.
proof fn lemma_desc_rows_props(j: int, hi: int, lo: int)
    ensures
        forall|k: int|
            0 <= k < desc_rows(j, hi, lo).len() ==> lo < (#[trigger] desc_rows(j, hi, lo)[k]).0
                <= hi && desc_rows(j, hi, lo)[k].1 == j && desc_rows(j, hi, lo)[k].2 == 1,
    decreases hi - lo,
{
    if hi > lo {
        lemma_desc_rows_props(j, hi - 1, lo);
        assert forall|k: int| 0 <= k < desc_rows(j, hi, lo).len() implies lo < (
        #[trigger] desc_rows(j, hi, lo)[k]).0 <= hi && desc_rows(j, hi, lo)[k].1 == j && desc_rows(
            j,
            hi,
            lo,
        )[k].2 == 1 by {
            if k == 0 {
                assert(desc_rows(j, hi, lo)[k] == (hi, j, 1int));
            } else {
                assert(desc_rows(j, hi, lo)[k] == desc_rows(j, hi - 1, lo)[k - 1]);
            }
        }
    }
}

/// Every step of a column trim stays between the trim bounds on the last
/// row and consumes a target element.
proof fn lemma_desc_cols_props(i: int, hi: int, lo: int)
    ensures
        forall|k: int|
            0 <= k < desc_cols(i, hi, lo).len() ==> (#[trigger] desc_cols(i, hi, lo)[k]).0 == i
                && lo < desc_cols(i, hi, lo)[k].1 <= hi && desc_cols(i, hi, lo)[k].2 == 2,
    decreases hi - lo,
{
    if hi > lo {
        lemma_desc_cols_props(i, hi - 1, lo);
        assert forall|k: int| 0 <= k < desc_cols(i, hi, lo).len() implies (#[trigger] desc_cols(
            i,
            hi,
            lo,
        )[k]).0 == i && lo < desc_cols(i, hi, lo)[k].1 <= hi && desc_cols(i, hi, lo)[k].2
            == 2 by {
            if k == 0 {
                assert(desc_cols(i, hi, lo)[k] == (i, hi, 2int));
            } else {
                assert(desc_cols(i, hi, lo)[k] == desc_cols(i, hi - 1, lo)[k - 1]);
            }
        }
    }
}

/// Every step the backtrace records from (i, j) inward stays within the
/// rectangle spanned by (i, j) and carries a known step kind.
proof fn lemma_tail_props(mat: Seq<Vec<i64>>, i: int, j: int)
    requires
        0 <= i,
        0 <= j,
    ensures
        forall|k: int|
            0 <= k < tail_path(mat, i, j).len() ==> 0 <= (#[trigger] tail_path(mat, i, j)[k]).0
                <= i && 0 <= tail_path(mat, i, j)[k].1 <= j && 0 <= tail_path(mat, i, j)[k].2 <= 2,
    decreases i + j,
{
    if i > 0 && j > 0 {
        let d = back_kind(mat, i, j);
        let ni = if d == 2 {
            i
        } else {
            i - 1
        };
        let nj = if d == 1 {
            j
        } else {
            j - 1
        };
        lemma_tail_props(mat, ni, nj);
        if ni > 0 && nj > 0 {
            assert forall|k: int| 0 <= k < tail_path(mat, i, j).len() implies 0 <= (
            #[trigger] tail_path(mat, i, j)[k]).0 <= i && 0 <= tail_path(mat, i, j)[k].1 <= j && 0
                <= tail_path(mat, i, j)[k].2 <= 2 by {
                if k == 0 {
                    assert(tail_path(mat, i, j)[k] == (ni, nj, d));
                } else {
                    assert(tail_path(mat, i, j)[k] == tail_path(mat, ni, nj)[k - 1]);
                }
            }
        } else {
            assert(tail_path(mat, i, j) == tail_path(mat, ni, nj));
            assert forall|k: int| 0 <= k < tail_path(mat, i, j).len() implies 0 <= (
            #[trigger] tail_path(mat, i, j)[k]).0 <= i && 0 <= tail_path(mat, i, j)[k].1 <= j && 0
                <= tail_path(mat, i, j)[k].2 <= 2 by {
                assert(tail_path(mat, i, j)[k] == tail_path(mat, ni, nj)[k]);
            }
        }
    } else if i > 0 {
        lemma_walk_rows_props(i);
    } else if j > 0 {
        lemma_walk_cols_props(j);
    }
}

/// Every step of the full path lies inside the matrix and carries a step
/// kind the writer knows; with every step one of the three kinds, the
/// three kind counts sum to the whole path length.
pub proof fn lemma_full_path_props(mat: Seq<Vec<i64>>)
    requires
        rect(mat),
    ensures
        forall|k: int|
            0 <= k < spec_full_path(mat).len() ==> 0 <= (#[trigger] spec_full_path(mat)[k]).0
                < mat.len() && 0 <= spec_full_path(mat)[k].1 < mat[0]@.len() && 0 <= spec_full_path(
                mat,
            )[k].2 <= 2,
        count_kind(spec_full_path(mat), 0) + count_kind(spec_full_path(mat), 1) + count_kind(
            spec_full_path(mat),
            2,
        ) == spec_full_path(mat).len(),
{
    let m = mat.len() as int;
    let n = mat[0]@.len() as int;
    lemma_col_best_bounds(mat, m - 1);
    lemma_row_best_bounds(mat, n - 1);
    let s = start_cell(mat);
    lemma_tail_props(mat, s.0, s.1);
    lemma_desc_rows_props(n - 1, m - 1, end_max_i(mat));
    lemma_desc_cols_props(m - 1, n - 1, end_max_j(mat));
    lemma_count_kinds_total(spec_full_path(mat));
}

/// A path whose kinds are all at most 2 has its three kind counts sum to
/// its length.
proof fn lemma_count_kinds_total(p: Seq<(int, int, int)>)
    requires
        forall|k: int| 0 <= k < p.len() ==> 0 <= (#[trigger] p[k]).2 <= 2,
    ensures
        count_kind(p, 0) + count_kind(p, 1) + count_kind(p, 2) == p.len(),
    decreases p.len(),
{
    if p.len() > 0 {
        assert(forall|k: int|
            0 <= k < p.drop_last().len() ==> 0 <= (#[trigger] p.drop_last()[k]).2 <= 2);
        lemma_count_kinds_total(p.drop_last());
    }
}

/// Walking the path from the end point toward the start, neither index
/// ever grows, each moves by at most one per step, and both shrink together
/// only into a diagonal step or onto an axis (the leading remainder records
/// axis cells, the origin included, as gap steps).
pub open spec fn step_pair_ok(a: (int, int, int), b: (int, int, int)) -> bool {
    &&& 0 <= a.0 - b.0 <= 1
    &&& 0 <= a.1 - b.1 <= 1
    &&& (a.0 - b.0 == 1 && a.1 - b.1 == 1) ==> (b.2 == 0 || b.0 == 0 || b.1 == 0)
}

/// The source-axis remainder walk, element by element.
proof fn lemma_walk_rows_index(i: int)
    requires
        i >= 0,
    ensures
        walk_rows(i).len() == i + 1,
        forall|k: int| 0 <= k <= i ==> #[trigger] walk_rows(i)[k] == (i - k, 0int, 1int),
    decreases i,
{
    if i > 0 {
        lemma_walk_rows_index(i - 1);
        assert forall|k: int| 0 <= k <= i implies #[trigger] walk_rows(i)[k] == (
            i - k,
            0int,
            1int,
        ) by {
            if k > 0 {
                assert(walk_rows(i)[k] == walk_rows(i - 1)[k - 1]);
            }
        }
    }
}

/// The target-axis remainder walk, element by element.
proof fn lemma_walk_cols_index(j: int)
    requires
        j >= 0,
    ensures
        walk_cols(j).len() == j + 1,
        forall|k: int| 0 <= k <= j ==> #[trigger] walk_cols(j)[k] == (0int, j - k, 2int),
    decreases j,
{
    if j > 0 {
        lemma_walk_cols_index(j - 1);
        assert forall|k: int| 0 <= k <= j implies #[trigger] walk_cols(j)[k] == (
            0int,
            j - k,
            2int,
        ) by {
            if k > 0 {
                assert(walk_cols(j)[k] == walk_cols(j - 1)[k - 1]);
            }
        }
    }
}

/// A row trim, element by element.
pub proof fn lemma_desc_rows_index(j: int, hi: int, lo: int)
    requires
        lo <= hi,
    ensures
        desc_rows(j, hi, lo).len() == hi - lo,
        forall|k: int| 0 <= k < hi - lo ==> #[trigger] desc_rows(j, hi, lo)[k] == (hi - k, j, 1int),
    decreases hi - lo,
{
    if hi > lo {
        lemma_desc_rows_index(j, hi - 1, lo);
        assert forall|k: int| 0 <= k < hi - lo implies #[trigger] desc_rows(j, hi, lo)[k] == (
            hi - k,
            j,
            1int,
        ) by {
            if k > 0 {
                assert(desc_rows(j, hi, lo)[k] == desc_rows(j, hi - 1, lo)[k - 1]);
            }
        }
    }
}

/// A column trim, element by element.
pub proof fn lemma_desc_cols_index(i: int, hi: int, lo: int)
    requires
        lo <= hi,
    ensures
        desc_cols(i, hi, lo).len() == hi - lo,
        forall|k: int| 0 <= k < hi - lo ==> #[trigger] desc_cols(i, hi, lo)[k] == (i, hi - k, 2int),
    decreases hi - lo,
{
    if hi > lo {
        lemma_desc_cols_index(i, hi - 1, lo);
        assert forall|k: int| 0 <= k < hi - lo implies #[trigger] desc_cols(i, hi, lo)[k] == (
            i,
            hi - k,
            2int,
        ) by {
            if k > 0 {
                assert(desc_cols(i, hi, lo)[k] == desc_cols(i, hi - 1, lo)[k - 1]);
            }
        }
    }
}

/// Adjacency within the backtrace: every consecutive pair of recorded
/// steps satisfies the step relation, and so does the cell the backtrace
/// starts from against the first recorded step.
proof fn lemma_tail_adjacency(mat: Seq<Vec<i64>>, i: int, j: int)
    requires
        0 <= i,
        0 <= j,
    ensures
        forall|k: int|
            0 <= k < tail_path(mat, i, j).len() - 1 ==> step_pair_ok(
                #[trigger] tail_path(mat, i, j)[k],
                tail_path(mat, i, j)[k + 1],
            ),
        tail_path(mat, i, j).len() > 0 ==> step_pair_ok((i, j, 0int), tail_path(mat, i, j)[0]),
    decreases i + j,
{
    let t = tail_path(mat, i, j);
    if i > 0 && j > 0 {
        let d = back_kind(mat, i, j);
        let ni = if d == 2 {
            i
        } else {
            i - 1
        };
        let nj = if d == 1 {
            j
        } else {
            j - 1
        };
        lemma_tail_adjacency(mat, ni, nj);
        let rest = tail_path(mat, ni, nj);
        if ni > 0 && nj > 0 {
            assert(t == seq![(ni, nj, d)] + rest);
            assert(step_pair_ok((i, j, 0int), t[0]));
            assert forall|k: int| 0 <= k < t.len() - 1 implies step_pair_ok(
                #[trigger] t[k],
                t[k + 1],
            ) by {
                if k == 0 {
                    assert(t[0] == (ni, nj, d));
                    assert(t[1] == rest[0]);
                    assert(step_pair_ok((ni, nj, 0int), rest[0]));
                } else {
                    assert(t[k] == rest[k - 1]);
                    assert(t[k + 1] == rest[k]);
                }
            }
        } else if ni == 0 && nj == 0 {
            assert(t.len() == 0);
        } else if ni == 0 {
            assert(t == walk_cols(nj));
            lemma_walk_cols_index(nj);
            assert(t[0] == (0int, nj, 2int));
            assert forall|k: int| 0 <= k < t.len() - 1 implies step_pair_ok(
                #[trigger] t[k],
                t[k + 1],
            ) by {
                assert(t[k] == (0int, nj - k, 2int));
                assert(t[k + 1] == (0int, nj - k - 1, 2int));
            }
        } else {
            assert(t == walk_rows(ni));
            lemma_walk_rows_index(ni);
            assert(t[0] == (ni, 0int, 1int));
            assert forall|k: int| 0 <= k < t.len() - 1 implies step_pair_ok(
                #[trigger] t[k],
                t[k + 1],
            ) by {
                assert(t[k] == (ni - k, 0int, 1int));
                assert(t[k + 1] == (ni - k - 1, 0int, 1int));
            }
        }
    } else if i > 0 {
        lemma_walk_rows_index(i);
        assert(t[0] == (i, 0int, 1int));
        assert forall|k: int| 0 <= k < t.len() - 1 implies step_pair_ok(#[trigger] t[k], t[k + 1]) by {
            assert(t[k] == (i - k, 0int, 1int));
            assert(t[k + 1] == (i - k - 1, 0int, 1int));
        }
    } else if j > 0 {
        lemma_walk_cols_index(j);
        assert(t[0] == (0int, j, 2int));
        assert forall|k: int| 0 <= k < t.len() - 1 implies step_pair_ok(#[trigger] t[k], t[k + 1]) by {
            assert(t[k] == (0int, j - k, 2int));
            assert(t[k + 1] == (0int, j - k - 1, 2int));
        }
    }
}

/// Replaying the whole path from the end point toward the start, neither
/// index ever grows, each index shrinks by at most one per step, and both
/// shrink together only into a diagonal step or onto an axis.
pub proof fn lemma_full_path_adjacency(mat: Seq<Vec<i64>>)
    requires
        rect(mat),
    ensures
        forall|k: int|
            0 <= k < spec_full_path(mat).len() - 1 ==> step_pair_ok(
                #[trigger] spec_full_path(mat)[k],
                spec_full_path(mat)[k + 1],
            ),
{
    let m = mat.len() as int;
    let n = mat[0]@.len() as int;
    let mi = end_max_i(mat);
    let mj = end_max_j(mat);
    lemma_col_best_bounds(mat, m - 1);
    lemma_row_best_bounds(mat, n - 1);
    let s = start_cell(mat);
    let trim = if mi == m - 1 && mj == n - 1 {
        Seq::<(int, int, int)>::empty()
    } else if cell(mat, mi, n - 1) > cell(mat, m - 1, mj) {
        desc_rows(n - 1, m - 1, mi)
    } else {
        desc_cols(m - 1, n - 1, mj)
    };
    let tail = tail_path(mat, s.0, s.1);
    let p = spec_full_path(mat);
    assert(p == trim + seq![(s.0, s.1, 0int)] + tail);
    lemma_tail_adjacency(mat, s.0, s.1);
    if !(mi == m - 1 && mj == n - 1) {
        if cell(mat, mi, n - 1) > cell(mat, m - 1, mj) {
            lemma_desc_rows_index(n - 1, m - 1, mi);
        } else {
            lemma_desc_cols_index(m - 1, n - 1, mj);
        }
    }
    assert forall|k: int| 0 <= k < p.len() - 1 implies step_pair_ok(#[trigger] p[k], p[k + 1]) by {
        let tl = trim.len();
        if k + 1 < tl {
            assert(p[k] == trim[k]);
            assert(p[k + 1] == trim[k + 1]);
        } else if k + 1 == tl {
            assert(p[k] == trim[k]);
            assert(p[k + 1] == (s.0, s.1, 0int));
        } else if k == tl {
            assert(p[k] == (s.0, s.1, 0int));
            assert(p[k + 1] == tail[0]);
        } else {
            assert(p[k] == tail[k - tl - 1]);
            assert(p[k + 1] == tail[k - tl]);
        }
    }
}

/// Find the traceback path through a completed score matrix: the end-point
/// trim, the recorded start cell, the tie-broken backtrace, and the leading
/// remainder, ordered from the end point back to the start.
pub fn find_global_alignment_all_path_low(score_matrix: &Vec<Vec<i64>>) -> (r: Result<
    Vec<(usize, usize, usize)>,
    HorScanError,
>)
    requires
        rect(score_matrix@),
    ensures
        r is Ok,
        view_path((r->Ok_0)@) == spec_full_path(score_matrix@),
{
    let ghost mat = score_matrix@;
    let m = score_matrix.len();
    let n = score_matrix[0].len();
    let mut i = m - 1;
    let mut j = n - 1;
    let mut path: Vec<(usize, usize, usize)> = Vec::new();

    let mut max_score = score_matrix[i][j];
    let mut max_i = i;
    let mut max_j = j;
    let mut k: usize = 0;
    while k < i
        invariant
            rect(mat),
            mat == score_matrix@,
            m == mat.len(),
            n == mat[0]@.len(),
            i == m - 1,
            j == n - 1,
            k <= i,
            (max_score as int, max_i as int) == col_best(mat, k as int),
            max_i < m,
        decreases i - k,
    {
        if score_matrix[k][j] > max_score {
            max_score = score_matrix[k][j];
            max_i = k;
        }
        k = k + 1;
    }
    proof {
        assert((max_score as int, max_i as int) == col_best(mat, m - 1));
    }
    let mut k: usize = 0;
    while k < j
        invariant
            rect(mat),
            mat == score_matrix@,
            m == mat.len(),
            n == mat[0]@.len(),
            i == m - 1,
            j == n - 1,
            k <= j,
            (max_score as int, max_j as int) == row_best(mat, k as int),
            max_i as int == end_max_i(mat),
            max_i < m,
            max_j < n,
        decreases j - k,
    {
        if score_matrix[i][k] > max_score {
            max_score = score_matrix[i][k];
            max_j = k;
        }
        k = k + 1;
    }
    proof {
        assert(max_j as int == end_max_j(mat));
    }

    if max_i == i && max_j == j {
        // neither scan improved on the corner: no trailing-gap trim
    } else if score_matrix[max_i][j] > score_matrix[i][max_j] {
        let mut k: usize = i;
        while k > max_i
            invariant
                rect(mat),
                mat == score_matrix@,
                m == mat.len(),
                n == mat[0]@.len(),
                j == n - 1,
                max_i <= k <= m - 1,
                view_path(path@) == desc_rows(j as int, m - 1, k as int),
            decreases k - max_i,
        {
            proof {
                lemma_desc_rows_snoc(j as int, m - 1, k as int);
            }
            path.push((k, j, 1));
            proof {
                assert(view_path(path@) =~= desc_rows(j as int, m - 1, k as int - 1));
            }
            k = k - 1;
        }
        i = max_i;
    } else {
        let mut k: usize = j;
        while k > max_j
            invariant
                rect(mat),
                mat == score_matrix@,
                m == mat.len(),
                n == mat[0]@.len(),
                i == m - 1,
                max_j <= k <= n - 1,
                view_path(path@) == desc_cols(i as int, n - 1, k as int),
            decreases k - max_j,
        {
            proof {
                lemma_desc_cols_snoc(i as int, n - 1, k as int);
            }
            path.push((i, k, 2));
            proof {
                assert(view_path(path@) =~= desc_cols(i as int, n - 1, k as int - 1));
            }
            k = k - 1;
        }
        j = max_j;
    }
    proof {
        assert((i as int, j as int) == start_cell(mat));
    }
    path.push((i, j, 0));
    proof {
        assert(view_path(path@) + tail_path(mat, i as int, j as int) =~= spec_full_path(mat));
    }
    while i > 0 && j > 0
        invariant
            rect(mat),
            mat == score_matrix@,
            m == mat.len(),
            n == mat[0]@.len(),
            i < m,
            j < n,
            view_path(path@) + tail_path(mat, i as int, j as int) == spec_full_path(mat),
        decreases i + j,
    {
        let diag = score_matrix[i - 1][j - 1];
        let up = score_matrix[i - 1][j];
        let left = score_matrix[i][j - 1];
        let ghost oi = i as int;
        let ghost oj = j as int;
        let d: usize = if diag >= up && diag >= left {
            0
        } else if up >= left {
            1
        } else {
            2
        };
        if d != 2 {
            i = i - 1;
        }
        if d != 1 {
            j = j - 1;
        }
        if i > 0 && j > 0 {
            path.push((i, j, d));
        }
        proof {
            assert(d as int == back_kind(mat, oi, oj));
            assert(view_path(path@) + tail_path(mat, i as int, j as int) =~= spec_full_path(mat));
        }
    }
    if i > 0 {
        let mut k: usize = i + 1;
        while k > 0
            invariant
                rect(mat),
                mat == score_matrix@,
                m == mat.len(),
                n == mat[0]@.len(),
                k <= m,
                view_path(path@) + walk_rows(k as int - 1) == spec_full_path(mat),
            decreases k,
        {
            k = k - 1;
            path.push((k, 0, 1));
            proof {
                assert(view_path(path@) + walk_rows(k as int - 1) =~= spec_full_path(mat));
            }
        }
    } else if j > 0 {
        let mut k: usize = j + 1;
        while k > 0
            invariant
                rect(mat),
                mat == score_matrix@,
                m == mat.len(),
                n == mat[0]@.len(),
                k <= n,
                view_path(path@) + walk_cols(k as int - 1) == spec_full_path(mat),
            decreases k,
        {
            k = k - 1;
            path.push((0, k, 2));
            proof {
                assert(view_path(path@) + walk_cols(k as int - 1) =~= spec_full_path(mat));
            }
        }
    }
    proof {
        assert(view_path(path@) =~= spec_full_path(mat));
    }
    Ok(path)
}

} // verus!
