//! The dynamic-programming scorer: builds the dense score matrix over two
//! sentinel-prefixed interval sequences. Row 0 and column 0 carry cumulative
//! gap scores; every interior cell is the maximum of its three-neighbor
//! recurrence and a zero floor.

use vstd::prelude::*;

use crate::model::{HorScanError, Mode, MonRow};

verus! {

/// Largest admissible sequence length for the scorer; keeps every matrix
/// entry and every intermediate sum within a 64-bit signed integer.
pub const MAX_ALIGN_LEN: usize = 0x4000_0000;

/// The label sequence of an interval list.
pub open spec fn labels_of(rows: Seq<MonRow>) -> Seq<Seq<char>> {
    rows.map_values(|r: MonRow| r.mon@)
}

/// Maximum of four integers.
pub open spec fn max4(a: int, b: int, c: int, d: int) -> int {
    let m1 = if a >= b { a } else { b };
    let m2 = if c >= d { c } else { d };
    if m1 >= m2 { m1 } else { m2 }
}

/// The value the score matrix holds at (i, j): cumulative gap score along
/// row 0 and column 0, and for interior cells the maximum of the gapped and
/// diagonal extensions and the zero floor.
pub open spec fn spec_score(
    src: Seq<Seq<char>>,
    tgt: Seq<Seq<char>>,
    m: Mode,
    i: int,
    j: int,
) -> int
    decreases i + j,
{
    if i <= 0 && j <= 0 {
        0
    } else if j <= 0 {
        m.gap_score as int * i
    } else if i <= 0 {
        m.gap_score as int * j
    } else {
        let diag = spec_score(src, tgt, m, i - 1, j - 1) + (if src[i] == tgt[j] {
            m.match_score as int
        } else {
            m.mismatch_score as int
        });
        let up = spec_score(src, tgt, m, i - 1, j) + m.gap_score as int;
        let left = spec_score(src, tgt, m, i, j - 1) + m.gap_score as int;
        max4(up, left, diag, 0)
    }
}

/// A matrix holds exactly the recurrence values for these two sequences.
pub open spec fn matrix_ok(
    mat: Seq<Vec<i64>>,
    src: Seq<Seq<char>>,
    tgt: Seq<Seq<char>>,
    m: Mode,
) -> bool {
    &&& mat.len() == src.len()
    &&& forall|i: int| 0 <= i < mat.len() ==> (#[trigger] mat[i])@.len() == tgt.len()
    &&& forall|i: int, j: int|
        0 <= i < mat.len() && 0 <= j < tgt.len() ==> #[trigger] mat[i]@[j] as int == spec_score(
            src,
            tgt,
            m,
            i,
            j,
        )
}

/// Every score value lies within (i + j) times the largest score magnitude
/// a 32-bit configuration can hold.
pub proof fn lemma_score_bound(src: Seq<Seq<char>>, tgt: Seq<Seq<char>>, m: Mode, i: int, j: int)
    requires
        i >= 0,
        j >= 0,
    ensures
        -((i + j) * 0x8000_0000) <= spec_score(src, tgt, m, i, j) <= (i + j) * 0x8000_0000,
    decreases i + j,
{
    let g = m.gap_score as int;
    if i <= 0 && j <= 0 {
    } else if j <= 0 {
        assert(-(0x8000_0000 * i) <= g * i <= 0x8000_0000 * i) by (nonlinear_arith)
            requires
                i >= 0,
                -0x8000_0000 <= g <= 0x8000_0000,
        ;
    } else if i <= 0 {
        assert(-(0x8000_0000 * j) <= g * j <= 0x8000_0000 * j) by (nonlinear_arith)
            requires
                j >= 0,
                -0x8000_0000 <= g <= 0x8000_0000,
        ;
    } else {
        lemma_score_bound(src, tgt, m, i - 1, j - 1);
        lemma_score_bound(src, tgt, m, i - 1, j);
        lemma_score_bound(src, tgt, m, i, j - 1);
    }
}

/// Row 0 and column 0 hold the cumulative gap score: `gap * i` down the
/// first column and `gap * j` along the first row.
pub proof fn lemma_score_boundary(src: Seq<Seq<char>>, tgt: Seq<Seq<char>>, m: Mode, i: int, j: int)
    requires
        i >= 0,
        j >= 0,
    ensures
        spec_score(src, tgt, m, i, 0) == m.gap_score as int * i,
        spec_score(src, tgt, m, 0, j) == m.gap_score as int * j,
{
    assert(m.gap_score as int * 0 == 0);
}

/// Every interior cell (both indices at least 1) is non-negative: the zero
/// floor of the recurrence. Boundary cells are exempt, since a negative gap
/// score makes them negative.
pub proof fn lemma_score_floor(src: Seq<Seq<char>>, tgt: Seq<Seq<char>>, m: Mode, i: int, j: int)
    requires
        i >= 1,
        j >= 1,
    ensures
        spec_score(src, tgt, m, i, j) >= 0,
{
}

/// Build the score matrix for the two sentinel-prefixed interval sequences:
/// boundary rows seeded with cumulative gap scores, every interior cell the
/// floored maximum of its up, left and diagonal extensions.
pub fn horscan_global_linear_score_alignment_low(
    source_bed: &Vec<MonRow>,
    target_bed: &Vec<MonRow>,
    mode: Mode,
) -> (r: Result<Vec<Vec<i64>>, HorScanError>)
    requires
        source_bed@.len() <= MAX_ALIGN_LEN,
        target_bed@.len() <= MAX_ALIGN_LEN,
    ensures
        r is Ok,
        matrix_ok((r->Ok_0)@, labels_of(source_bed@), labels_of(target_bed@), mode),
{
    let ghost src = labels_of(source_bed@);
    let ghost tgt = labels_of(target_bed@);
    let m = source_bed.len();
    let n = target_bed.len();
    let g: i64 = mode.gap_score as i64;
    let mut mat: Vec<Vec<i64>> = Vec::new();

    let mut i: usize = 0;
    while i < m
        invariant
            m == source_bed@.len(),
            n == target_bed@.len(),
            m <= MAX_ALIGN_LEN,
            n <= MAX_ALIGN_LEN,
            g == mode.gap_score as i64,
            src == labels_of(source_bed@),
            tgt == labels_of(target_bed@),
            i <= m,
            mat@.len() == i,
            forall|ii: int| 0 <= ii < i ==> (#[trigger] mat@[ii])@.len() == n,
            forall|ii: int, jj: int|
                0 <= ii < i && 0 <= jj < n ==> #[trigger] mat@[ii]@[jj] as int == spec_score(
                    src,
                    tgt,
                    mode,
                    ii,
                    jj,
                ),
        decreases m - i,
    {
        let mut row: Vec<i64> = Vec::new();
        if i == 0 {
            let mut j: usize = 0;
            while j < n
                invariant
                    n <= MAX_ALIGN_LEN,
                    g == mode.gap_score as i64,
                    j <= n,
                    row@.len() == j,
                    forall|jj: int| 0 <= jj < j ==> #[trigger] row@[jj] as int == mode.gap_score as int * jj,
                decreases n - j,
            {
                proof {
                    assert(-(0x8000_0000 * (j as int)) <= mode.gap_score as int * (j as int) <= 0x8000_0000
                        * (j as int)) by (nonlinear_arith)
                        requires
                            j >= 0,
                            -0x8000_0000 <= mode.gap_score as int <= 0x8000_0000,
                    ;
                }
                row.push(g * (j as i64));
                j = j + 1;
            }
            proof {
                assert forall|jj: int| 0 <= jj < n implies #[trigger] row@[jj] as int == spec_score(
                    src,
                    tgt,
                    mode,
                    0,
                    jj,
                ) by {
                    lemma_score_boundary(src, tgt, mode, 0, jj);
                }
            }
        } else if n > 0 {
            proof {
                assert(-(0x8000_0000 * (i as int)) <= mode.gap_score as int * (i as int) <= 0x8000_0000 * (
                i as int)) by (nonlinear_arith)
                    requires
                        i >= 0,
                        -0x8000_0000 <= mode.gap_score as int <= 0x8000_0000,
                ;
                lemma_score_boundary(src, tgt, mode, i as int, 0);
            }
            row.push(g * (i as i64));
            let mut j: usize = 1;
            while j < n
                invariant
                    m == source_bed@.len(),
                    n == target_bed@.len(),
                    m <= MAX_ALIGN_LEN,
                    n <= MAX_ALIGN_LEN,
                    g == mode.gap_score as i64,
                    src == labels_of(source_bed@),
                    tgt == labels_of(target_bed@),
                    1 <= i < m,
                    1 <= j <= n,
                    mat@.len() == i,
                    forall|ii: int| 0 <= ii < i ==> (#[trigger] mat@[ii])@.len() == n,
                    forall|ii: int, jj: int|
                        0 <= ii < i && 0 <= jj < n ==> #[trigger] mat@[ii]@[jj] as int == spec_score(
                            src,
                            tgt,
                            mode,
                            ii,
                            jj,
                        ),
                    row@.len() == j,
                    forall|jj: int|
                        0 <= jj < j ==> #[trigger] row@[jj] as int == spec_score(
                            src,
                            tgt,
                            mode,
                            i as int,
                            jj,
                        ),
                decreases n - j,
            {
                proof {
                    lemma_score_bound(src, tgt, mode, i as int - 1, j as int - 1);
                    lemma_score_bound(src, tgt, mode, i as int - 1, j as int);
                    lemma_score_bound(src, tgt, mode, i as int, j as int - 1);
                }
                let prev_row = &mat[i - 1];
                let diag_base = prev_row[j - 1];
                let up_base = prev_row[j];
                let left_base = row[j - 1];
                let step: i64 = if source_bed[i].mon == target_bed[j].mon {
                    mode.match_score as i64
                } else {
                    mode.mismatch_score as i64
                };
                proof {
                    assert(src[i as int] == source_bed@[i as int].mon@);
                    assert(tgt[j as int] == target_bed@[j as int].mon@);
                }
                let diag: i64 = diag_base + step;
                let up: i64 = up_base + g;
                let left: i64 = left_base + g;
                let mut best: i64 = if up >= left {
                    up
                } else {
                    left
                };
                let floor_diag: i64 = if diag >= 0 {
                    diag
                } else {
                    0
                };
                if floor_diag > best {
                    best = floor_diag;
                }
                if best < 0 {
                    best = 0;
                }
                proof {
                    assert(best as int == max4(
                        up as int,
                        left as int,
                        diag as int,
                        0,
                    ));
                }
                row.push(best);
                j = j + 1;
            }
        }
        mat.push(row);
        i = i + 1;
    }
    Ok(mat)
}

} // verus!
