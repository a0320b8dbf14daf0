use horscan::engine::horscan_global_linear_score_alignment_low;
use horscan::extract::find_global_alignment_all_path_low;
use horscan::model::{AlignTag, Args, HorScanError, Mode, MonAlignmentRow, MonRow};
use horscan::model::{mode_from_values, parse_args};
use horscan::optimize::{
    count_types, find_useful_source_match, find_useful_target_match, optimize_alignment_rows,
    swap_blast_line_source, swap_blast_line_target,
};
use horscan::parse::parse_field;
use horscan::pipeline::{horscan_align, sort_by_start};
use horscan::writer::make_alignment_rows;

fn mon(sample: &str, start: i32, end: i32, label: &str) -> MonRow {
    MonRow { sample: sample.to_string(), start, end, mon: label.to_string() }
}

fn arow(smon: &str, tmon: &str, tag: AlignTag) -> MonAlignmentRow {
    MonAlignmentRow {
        source: "s".to_string(),
        source_start: 0,
        source_end: 0,
        source_mon: smon.to_string(),
        target: "t".to_string(),
        target_start: 0,
        target_end: 0,
        target_mon: tmon.to_string(),
        align_type: tag,
    }
}

fn default_mode() -> Mode {
    Mode { match_score: 4, mismatch_score: -5, gap_score: -2 }
}

fn scenario_beds() -> (Vec<MonRow>, Vec<MonRow>) {
    let source = vec![mon("s", 1, 2, "A"), mon("s", 2, 3, "B"), mon("s", 3, 4, "A")];
    let target = vec![mon("t", 1, 2, "A"), mon("t", 2, 3, "A"), mon("t", 3, 4, "B")];
    (source, target)
}

fn sentineled(rows: &[MonRow]) -> Vec<MonRow> {
    let mut v = vec![mon(&rows[0].sample, 0, 0, "-")];
    v.extend(rows.iter().cloned());
    v
}

// Boundary rows carry the cumulative gap score: score[i][0] == gap * i and
// score[0][j] == gap * j.
#[test]
fn score_matrix_boundaries() {
    let (source, target) = scenario_beds();
    let sb = sentineled(&source);
    let tb = sentineled(&target);
    let mat = horscan_global_linear_score_alignment_low(&sb, &tb, default_mode()).unwrap();
    for i in 0..4 {
        assert_eq!(mat[i][0], -2 * i as i64);
    }
    for j in 0..4 {
        assert_eq!(mat[0][j], -2 * j as i64);
    }
}

// Every interior cell is floored at zero, and the fill matches the hand
// computation of the concrete scenario.
#[test]
fn score_matrix_values_and_floor() {
    let (source, target) = scenario_beds();
    let sb = sentineled(&source);
    let tb = sentineled(&target);
    let mat = horscan_global_linear_score_alignment_low(&sb, &tb, default_mode()).unwrap();
    let expected: Vec<Vec<i64>> = vec![
        vec![0, -2, -4, -6],
        vec![-2, 4, 2, 0],
        vec![-4, 2, 0, 6],
        vec![-6, 0, 6, 4],
    ];
    assert_eq!(mat, expected);
    for i in 1..4 {
        for j in 1..4 {
            assert!(mat[i][j] >= 0);
        }
    }
}

// The traceback of the concrete scenario: one end-gap trim on the source
// axis, the recorded start cell, then diagonal-preferring moves.
#[test]
fn traceback_path_of_scenario() {
    let (source, target) = scenario_beds();
    let sb = sentineled(&source);
    let tb = sentineled(&target);
    let mat = horscan_global_linear_score_alignment_low(&sb, &tb, default_mode()).unwrap();
    let path = find_global_alignment_all_path_low(&mat).unwrap();
    assert_eq!(path, vec![(3, 3, 1), (2, 3, 0), (1, 2, 0), (1, 1, 2)]);
}

// The concrete scenario end to end: the emitted tags, and all tag counts
// summing to the number of non-sentinel path steps.
#[test]
fn scenario_rows_and_tag_count_sum() {
    let (source, target) = scenario_beds();
    let rows = horscan_align(&source, &target, default_mode()).unwrap();
    let tags: Vec<AlignTag> = rows.iter().map(|r| r.align_type).collect();
    assert_eq!(tags, vec![AlignTag::Ins, AlignTag::Mth, AlignTag::Mth, AlignTag::Del]);
    assert_eq!(rows[0].source_mon, "-");
    assert_eq!(rows[0].target_mon, "A");
    assert_eq!(rows[1].source_mon, "A");
    assert_eq!(rows[1].target_mon, "A");
    assert_eq!(rows[2].source_mon, "B");
    assert_eq!(rows[2].target_mon, "B");
    assert_eq!(rows[3].source_mon, "A");
    assert_eq!(rows[3].target_mon, "-");
    let c = count_types(&rows);
    assert_eq!(c.mth + c.ins + c.del + c.mis, 4);
}

// Every output row's tag matches its labels: MTH equal non-gap labels, MIS
// different non-gap labels, DEL a target-side gap, INS a source-side gap.
#[test]
fn output_tags_are_classified() {
    let (source, target) = scenario_beds();
    let rows = horscan_align(&source, &target, default_mode()).unwrap();
    let optimized = optimize_alignment_rows(rows);
    for r in &optimized {
        match r.align_type {
            AlignTag::Mth => {
                assert_ne!(r.source_mon, "-");
                assert_eq!(r.source_mon, r.target_mon);
            }
            AlignTag::Mis => {
                assert_ne!(r.source_mon, "-");
                assert_ne!(r.target_mon, "-");
                assert_ne!(r.source_mon, r.target_mon);
            }
            AlignTag::Del => assert_eq!(r.target_mon, "-"),
            AlignTag::Ins => assert_eq!(r.source_mon, "-"),
            AlignTag::Unx => panic!("transient row in output"),
        }
    }
}

// A lone deletion followed by a run of insertions, one of which carries the
// deleted label: the optimizer turns that insertion into a match and drops
// the displaced row, shrinking the stream by exactly one.
#[test]
fn rescue_across_forward_gap_run() {
    let rows = vec![
        arow("A", "-", AlignTag::Del),
        arow("-", "B", AlignTag::Ins),
        arow("-", "A", AlignTag::Ins),
    ];
    let out = optimize_alignment_rows(rows);
    assert_eq!(out.len(), 2);
    assert_eq!(out[0].align_type, AlignTag::Ins);
    assert_eq!(out[0].target_mon, "B");
    assert_eq!(out[1].align_type, AlignTag::Mth);
    assert_eq!(out[1].source_mon, "A");
    assert_eq!(out[1].target_mon, "A");
}

// No transient both-gap row ever survives optimization.
#[test]
fn no_transient_rows_in_output() {
    let rows = vec![
        arow("A", "-", AlignTag::Del),
        arow("-", "A", AlignTag::Ins),
        arow("B", "C", AlignTag::Mis),
    ];
    let out = optimize_alignment_rows(rows);
    for r in &out {
        assert_ne!(r.align_type, AlignTag::Unx);
    }
}

// A second optimizer pass over already-optimized rows leaves the four tag
// counts unchanged.
#[test]
fn second_pass_is_count_fixed_point() {
    let (source, target) = scenario_beds();
    let rows = horscan_align(&source, &target, default_mode()).unwrap();
    let once = optimize_alignment_rows(rows);
    let counts_once = count_types(&once);
    let twice = optimize_alignment_rows(once);
    let counts_twice = count_types(&twice);
    assert_eq!(counts_once, counts_twice);

    let rows2 = vec![
        arow("A", "-", AlignTag::Del),
        arow("-", "B", AlignTag::Ins),
        arow("-", "A", AlignTag::Ins),
        arow("C", "D", AlignTag::Mis),
    ];
    let once2 = optimize_alignment_rows(rows2);
    let c1 = count_types(&once2);
    let twice2 = optimize_alignment_rows(once2);
    let c2 = count_types(&twice2);
    assert_eq!(c1, c2);
}

// The backward rescue: a mismatch row whose target label waits in a gap
// row just before it.
#[test]
fn rescue_from_backward_gap_run() {
    let rows = vec![arow("A", "-", AlignTag::Del), arow("B", "A", AlignTag::Mis)];
    let out = optimize_alignment_rows(rows);
    assert_eq!(out.len(), 2);
    assert_eq!(out[0].align_type, AlignTag::Mth);
    assert_eq!(out[0].source_mon, "A");
    assert_eq!(out[0].target_mon, "A");
    assert_eq!(out[1].align_type, AlignTag::Del);
    assert_eq!(out[1].source_mon, "B");
    assert_eq!(out[1].target_mon, "-");
}

// The finds report the forward match first, then the backward one.
#[test]
fn find_functions_report_run_matches() {
    let rows = vec![
        arow("-", "A", AlignTag::Ins),
        arow("A", "-", AlignTag::Del),
        arow("-", "B", AlignTag::Ins),
        arow("-", "A", AlignTag::Ins),
    ];
    let ids = find_useful_target_match(&rows, 1).unwrap();
    assert_eq!(ids, vec![3, 0]);
    let none = find_useful_source_match(&rows, 1).unwrap();
    assert_eq!(none, Vec::<usize>::new());
}

// The source-axis swap moves the source fields and retags both rows.
#[test]
fn swap_source_axis() {
    let mut rows = vec![arow("A", "-", AlignTag::Del), arow("-", "A", AlignTag::Ins)];
    swap_blast_line_source(&mut rows, 0, 1).unwrap();
    assert_eq!(rows[1].align_type, AlignTag::Mth);
    assert_eq!(rows[1].source_mon, "A");
    assert_eq!(rows[0].source_mon, "-");
    assert_eq!(rows[0].align_type, AlignTag::Unx);
}

// The target-axis swap moves the target fields and retags both rows.
#[test]
fn swap_target_axis() {
    let mut rows = vec![arow("B", "A", AlignTag::Mis), arow("A", "-", AlignTag::Del)];
    swap_blast_line_target(&mut rows, 0, 1).unwrap();
    assert_eq!(rows[1].align_type, AlignTag::Mth);
    assert_eq!(rows[1].target_mon, "A");
    assert_eq!(rows[0].target_mon, "-");
    assert_eq!(rows[0].align_type, AlignTag::Del);
    assert_eq!(rows[0].source_mon, "B");
}

// An unknown step kind reaching the writer is an alignment error.
#[test]
fn writer_rejects_unknown_step_kind() {
    let sb = sentineled(&[mon("s", 1, 2, "A")]);
    let tb = sentineled(&[mon("t", 1, 2, "A")]);
    let path = vec![(1usize, 1usize, 7usize)];
    let r = make_alignment_rows(&sb, &tb, &path);
    assert!(matches!(r, Err(HorScanError::AlignmentError(_))));
}

// The writer skips the sentinel corner and classifies the rest.
#[test]
fn writer_skips_sentinel_corner() {
    let sb = sentineled(&[mon("s", 1, 2, "A")]);
    let tb = sentineled(&[mon("t", 1, 2, "B")]);
    let path = vec![(1usize, 1usize, 0usize), (0usize, 0usize, 1usize)];
    let rows = make_alignment_rows(&sb, &tb, &path).unwrap();
    assert_eq!(rows.len(), 1);
    assert_eq!(rows[0].align_type, AlignTag::Mis);
    assert_eq!(rows[0].source_mon, "A");
    assert_eq!(rows[0].target_mon, "B");
}

// Decimal fields parse exactly when they denote a 32-bit value.
#[test]
fn parse_field_accepts_and_rejects() {
    assert_eq!(parse_field("123", "start").unwrap(), 123);
    assert_eq!(parse_field("-45", "start").unwrap(), -45);
    assert_eq!(parse_field("+7", "start").unwrap(), 7);
    assert_eq!(parse_field("0042", "start").unwrap(), 42);
    assert_eq!(parse_field("2147483647", "end").unwrap(), 2147483647);
    assert_eq!(parse_field("-2147483648", "end").unwrap(), -2147483648);
    assert!(matches!(parse_field("2147483648", "end"), Err(HorScanError::ParseError(_))));
    assert!(matches!(parse_field("", "start"), Err(HorScanError::ParseError(_))));
    assert!(matches!(parse_field("-", "start"), Err(HorScanError::ParseError(_))));
    assert!(matches!(parse_field("12a", "start"), Err(HorScanError::ParseError(_))));
    assert!(matches!(parse_field("1.5", "start"), Err(HorScanError::ParseError(_))));
}

// Fewer than three raw values give the default configuration; otherwise the
// second and third are stored negated.
#[test]
fn mode_defaults_and_negation() {
    let m = mode_from_values(&vec![]);
    assert_eq!((m.match_score, m.mismatch_score, m.gap_score), (4, -5, -2));
    let m2 = mode_from_values(&vec![3, 4, 1]);
    assert_eq!((m2.match_score, m2.mismatch_score, m2.gap_score), (3, -4, -1));
}

// Sorting orders rows by ascending start and keeps exactly the input rows.
#[test]
fn sort_orders_by_start() {
    let rows = vec![mon("s", 5, 6, "C"), mon("s", 1, 2, "A"), mon("s", 3, 4, "B")];
    let sorted = sort_by_start(&rows);
    let starts: Vec<i32> = sorted.iter().map(|r| r.start).collect();
    assert_eq!(starts, vec![1, 3, 5]);
    let labels: Vec<&str> = sorted.iter().map(|r| r.mon.as_str()).collect();
    assert_eq!(labels, vec!["A", "B", "C"]);
}

// The run parameters bundle the parsed values unchanged.
#[test]
fn args_carry_values() {
    let a: Args = parse_args(
        "src.bed".to_string(),
        "tgt.bed".to_string(),
        "out".to_string(),
        "None".to_string(),
        vec![4, 5, 2],
    );
    assert_eq!(a.source, "src.bed");
    assert_eq!(a.target, "tgt.bed");
    assert_eq!(a.output, "out");
    assert_eq!(a.prefix, "None");
    assert_eq!(a.mode, vec![4, 5, 2]);
}

// Identical single-label inputs align to one match row.
#[test]
fn single_match_alignment() {
    let rows = horscan_align(
        &vec![mon("s", 1, 2, "A")],
        &vec![mon("t", 1, 2, "A")],
        default_mode(),
    )
    .unwrap();
    assert_eq!(rows.len(), 1);
    assert_eq!(rows[0].align_type, AlignTag::Mth);
}

// A row with no eligible rescue on either side is left untouched.
#[test]
fn untouched_row_without_rescue() {
    let rows = vec![arow("A", "B", AlignTag::Mis)];
    let out = optimize_alignment_rows(rows);
    assert_eq!(out.len(), 1);
    assert_eq!(out[0].align_type, AlignTag::Mis);
    assert_eq!(out[0].source_mon, "A");
    assert_eq!(out[0].target_mon, "B");
}
