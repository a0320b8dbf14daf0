//! Data model: labeled intervals, alignment rows, scoring configuration,
//! error kinds, and the classification invariant on alignment tags.

use vstd::prelude::*;

verus! {

/// Scoring configuration: match reward, mismatch penalty, linear gap penalty
/// (the latter two are usually negative), applied per element.
#[derive(Clone, Copy, Debug)]
pub struct Mode {
    pub match_score: i32,
    pub mismatch_score: i32,
    pub gap_score: i32,
}

/// One labeled genomic interval (a "monomer"): sample name, start and end
/// coordinates, and the repeat-unit label. The reserved label `"-"` means
/// "no interval here" and is used for the leading sentinel.
#[derive(Clone, Debug)]
pub struct MonRow {
    pub sample: String,
    pub start: i32,
    pub end: i32,
    pub mon: String,
}

/// Classification of one aligned row. `Unx` (both sides gap) is transient:
/// it only arises inside the optimizer and is dropped before output.
#[derive(Clone, Copy, Debug, PartialEq, Eq, Structural)]
pub enum AlignTag {
    Mth,
    Mis,
    Ins,
    Del,
    Unx,
}

/// One output alignment row: the source-side interval, the target-side
/// interval, and the tag classifying the pairing.
#[derive(Clone, Debug)]
pub struct MonAlignmentRow {
    pub source: String,
    pub source_start: i32,
    pub source_end: i32,
    pub source_mon: String,
    pub target: String,
    pub target_start: i32,
    pub target_end: i32,
    pub target_mon: String,
    pub align_type: AlignTag,
}

/// Error kinds: I/O failure, malformed input line, or an internal
/// alignment invariant violation. All are fatal to a run.
#[derive(Clone, Debug)]
pub enum HorScanError {
    Io(String),
    ParseError(String),
    AlignmentError(String),
}

/// Command-line parameters of a run: the two interval files, the output
/// prefix, a temporary-file prefix, and the raw scoring values.
#[derive(Clone, Debug)]
pub struct Args {
    pub source: String,
    pub target: String,
    pub output: String,
    pub prefix: String,
    pub mode: Vec<i32>,
}

/// The reserved gap label, as a sequence of characters.
pub open spec fn gap_seq() -> Seq<char> {
    seq!['-']
}

/// Does this label denote "no interval" (the gap marker)?
pub open spec fn is_gap_label(s: Seq<char>) -> bool {
    s == gap_seq()
}

/// The mathematical content of one alignment row: every field as a plain
/// sequence or integer. Contracts about rows are stated over this model.
pub struct RowModel {
    pub source: Seq<char>,
    pub source_start: int,
    pub source_end: int,
    pub source_mon: Seq<char>,
    pub target: Seq<char>,
    pub target_start: int,
    pub target_end: int,
    pub target_mon: Seq<char>,
    pub align_type: AlignTag,
}

/// The model of an alignment row.
pub open spec fn row_model(r: MonAlignmentRow) -> RowModel {
    RowModel {
        source: r.source@,
        source_start: r.source_start as int,
        source_end: r.source_end as int,
        source_mon: r.source_mon@,
        target: r.target@,
        target_start: r.target_start as int,
        target_end: r.target_end as int,
        target_mon: r.target_mon@,
        align_type: r.align_type,
    }
}

/// The models of a row sequence.
pub open spec fn models(s: Seq<MonAlignmentRow>) -> Seq<RowModel> {
    s.map_values(|r: MonAlignmentRow| row_model(r))
}

/// Tag classification invariant: a match pairs equal non-gap labels, a
/// mismatch pairs different non-gap labels, a deletion has a gap on the
/// target side, an insertion a gap on the source side.
pub open spec fn tag_wf(r: RowModel) -> bool {
    match r.align_type {
        AlignTag::Mth => !is_gap_label(r.source_mon) && !is_gap_label(r.target_mon)
            && r.source_mon == r.target_mon,
        AlignTag::Mis => !is_gap_label(r.source_mon) && !is_gap_label(r.target_mon)
            && r.source_mon != r.target_mon,
        AlignTag::Del => is_gap_label(r.target_mon),
        AlignTag::Ins => is_gap_label(r.source_mon),
        AlignTag::Unx => true,
    }
}

/// Is this label the gap marker?
pub fn is_gap(s: &String) -> (b: bool)
    ensures
        b == is_gap_label(s@),
{
    let g: String = "-".to_owned();
    proof {
        reveal_strlit("-");
        assert(g@ =~= gap_seq());
    }
    *s == g
}

/// Build the gap marker label.
pub fn gap_string() -> (s: String)
    ensures
        s@ == gap_seq(),
{
    let g: String = "-".to_owned();
    proof {
        reveal_strlit("-");
        assert(g@ =~= gap_seq());
    }
    g
}

/// Bundle already-parsed command-line values into the run parameters.
pub fn parse_args(
    source: String,
    target: String,
    output: String,
    prefix: String,
    mode: Vec<i32>,
) -> (a: Args)
    ensures
        a.source@ == source@,
        a.target@ == target@,
        a.output@ == output@,
        a.prefix@ == prefix@,
        a.mode@ == mode@,
{
    Args { source, target, output, prefix, mode }
}

/// The scoring configuration a raw value list denotes: the default
/// (match 4, mismatch -5, gap -2) when fewer than three values are given,
/// else the first value as the match score and the negations of the second
/// and third as mismatch and gap scores.
pub open spec fn spec_mode_of(vals: Seq<i32>) -> Mode {
    if vals.len() < 3 {
        Mode { match_score: 4, mismatch_score: -5 as i32, gap_score: -2 as i32 }
    } else {
        Mode {
            match_score: vals[0],
            mismatch_score: (-(vals[1] as int)) as i32,
            gap_score: (-(vals[2] as int)) as i32,
        }
    }
}

/// Turn the raw scoring values of the command line into a configuration.
/// The second and third values are magnitudes and are negated.
pub fn mode_from_values(vals: &Vec<i32>) -> (m: Mode)
    requires
        vals@.len() >= 3 ==> vals@[1] != i32::MIN && vals@[2] != i32::MIN,
    ensures
        m == spec_mode_of(vals@),
{
    if vals.len() < 3 {
        Mode { match_score: 4, mismatch_score: -5, gap_score: -2 }
    } else {
        Mode { match_score: vals[0], mismatch_score: -vals[1], gap_score: -vals[2] }
    }
}

} // verus!
