use peanut::aggregator::{Aggregator, CoverageError, FlushedGroup, LineError, LineOutcome};
use peanut::coverage::{popcount, CoverageState, MarkOutOfRange};
use peanut::edit_script::{advances, CigarOp};
use peanut::intervals::{uncovered_intervals, Interval};
use peanut::record::{parse_record, RecordError};
use peanut::totals::{Ratio, RatioReport, RunningTotals};

use CigarOp::{Deletion, Equal, Insertion, Match, Mismatch, SoftClip};

fn gaf_line(name: &str, len: usize, start: usize, cigar: &str) -> Vec<u8> {
    format!(
        "{}\t{}\t{}\t{}\t+\t>s1>s2\t{}\t0\t{}\t{}\t{}\t60\tcg:Z:{}\n",
        name, len, start, len, len, len, len, len, cigar
    )
    .into_bytes()
}

fn push(agg: &mut Aggregator, name: &str, len: usize, start: usize, script: Vec<(u32, CigarOp)>) -> Option<FlushedGroup> {
    agg.push(name.as_bytes().to_vec(), len, start, &script).unwrap()
}

fn ratio(n: u64, d: u64) -> Ratio {
    Ratio { numerator: n, denominator: d }
}

fn as_f64(r: Ratio) -> f64 {
    r.numerator as f64 / r.denominator as f64
}

#[test]
fn single_record_half_covered() {
    let mut agg = Aggregator::new();
    assert!(push(&mut agg, "q1", 10, 0, vec![(5, Equal), (5, Insertion)]).is_none());
    let g = agg.flush().unwrap().unwrap();
    assert_eq!(g.name, b"q1".to_vec());
    assert_eq!(g.stats.sequence_length, 10);
    assert_eq!(g.stats.aligned_len, 5);
    assert_eq!(g.stats.unique_len, 5);
    assert_eq!(g.stats.multi_len, 0);
    assert_eq!(g.stats.nonaligned_len, 5);
    let rep = agg.totals.report().unwrap();
    assert_eq!(as_f64(rep.aligned), 0.5);
    assert_eq!(as_f64(rep.unique), 0.5);
    assert_eq!(as_f64(rep.multi), 0.0);
    assert_eq!(as_f64(rep.nonaligned), 0.5);
    assert_eq!(uncovered_intervals(&g.aligned), vec![Interval { start: 5, end: 10 }]);
}

#[test]
fn two_records_same_query_fully_multiple() {
    let mut agg = Aggregator::new();
    assert!(push(&mut agg, "q1", 10, 0, vec![(10, Equal)]).is_none());
    assert!(push(&mut agg, "q1", 10, 0, vec![(10, Equal)]).is_none());
    let g = agg.flush().unwrap().unwrap();
    assert_eq!(g.stats.aligned_len, 10);
    assert_eq!(g.stats.multi_len, 10);
    assert_eq!(g.stats.unique_len, 0);
    assert_eq!(g.stats.nonaligned_len, 0);
    let rep = agg.totals.report().unwrap();
    assert_eq!(
        (as_f64(rep.aligned), as_f64(rep.unique), as_f64(rep.multi), as_f64(rep.nonaligned)),
        (1.0, 0.0, 1.0, 0.0)
    );
}

#[test]
fn match_runs_do_not_cover() {
    let mut agg = Aggregator::new();
    push(&mut agg, "q1", 10, 0, vec![(10, Match)]);
    let g = agg.flush().unwrap().unwrap();
    assert_eq!(g.stats.aligned_len, 0);
    assert_eq!(g.stats.nonaligned_len, 10);
    assert_eq!(uncovered_intervals(&g.aligned), vec![Interval { start: 0, end: 10 }]);
}

#[test]
fn empty_input_has_undefined_ratios() {
    let mut agg = Aggregator::new();
    assert!(agg.flush().unwrap().is_none());
    assert_eq!(agg.totals, RunningTotals::new());
    assert_eq!(agg.totals.report(), None);
}

#[test]
fn mark_at_last_position_is_legal() {
    let mut s = CoverageState::new(b"q".to_vec(), 10);
    assert_eq!(s.mark(&vec![(9, Insertion), (1, Equal)], 0), Ok(()));
    assert!(s.aligned[9]);
    assert_eq!(popcount(&s.aligned), 1);
}

#[test]
fn mark_one_past_the_end_is_refused() {
    let mut s = CoverageState::new(b"q".to_vec(), 10);
    assert_eq!(s.mark(&vec![(10, Insertion), (1, Equal)], 0), Err(MarkOutOfRange { position: 10 }));
    assert_eq!(popcount(&s.aligned), 0);
    let mut t = CoverageState::new(b"q".to_vec(), 10);
    assert_eq!(t.mark(&vec![(8, Equal)], 5), Err(MarkOutOfRange { position: 10 }));
    assert_eq!(popcount(&t.aligned), 0);
}

#[test]
fn out_of_range_names_sequence_and_keeps_state() {
    let mut agg = Aggregator::new();
    push(&mut agg, "q1", 10, 0, vec![(3, Equal)]);
    let e = agg.push(b"q1".to_vec(), 10, 4, &vec![(2, Deletion), (20, Equal)]).unwrap_err();
    assert_eq!(e, CoverageError::OutOfRange { sequence: b"q1".to_vec(), position: 10 });
    let e2 = agg.push(b"q2".to_vec(), 5, 12, &vec![(1, Equal)]).unwrap_err();
    assert_eq!(e2, CoverageError::OutOfRange { sequence: b"q2".to_vec(), position: 12 });
    let g = agg.flush().unwrap().unwrap();
    assert_eq!(g.name, b"q1".to_vec());
    assert_eq!(g.stats.aligned_len, 3);
}

#[test]
fn start_offset_and_ops_move_cursor() {
    let mut s = CoverageState::new(b"q".to_vec(), 20);
    let script = vec![(2, Equal), (3, Deletion), (2, Mismatch), (1, SoftClip), (2, Insertion), (2, Match), (3, Equal)];
    s.mark(&script, 4).unwrap();
    let covered: Vec<usize> = (0..20).filter(|&i| s.aligned[i]).collect();
    assert_eq!(covered, vec![4, 5, 12, 13, 14]);
    assert!(advances(Match) && advances(Mismatch) && advances(Insertion) && advances(Equal));
    assert!(!advances(Deletion) && !advances(SoftClip));
}

#[test]
fn zero_length_runs_are_no_ops() {
    let mut s = CoverageState::new(b"q".to_vec(), 3);
    s.mark(&vec![(0, Equal), (0, Insertion), (3, Equal), (0, Equal)], 0).unwrap();
    assert_eq!(popcount(&s.aligned), 3);
    assert_eq!(popcount(&s.multi), 0);
}

#[test]
fn counts_add_up_per_group() {
    let mut s = CoverageState::new(b"q".to_vec(), 12);
    s.mark(&vec![(6, Equal)], 0).unwrap();
    s.mark(&vec![(6, Equal)], 3).unwrap();
    s.mark(&vec![(2, Equal)], 4).unwrap();
    let st = s.stats();
    assert_eq!(st.aligned_len, 9);
    assert_eq!(st.multi_len, 3);
    assert_eq!(st.unique_len, 6);
    assert_eq!(st.nonaligned_len, 3);
    assert_eq!(st.aligned_len + st.nonaligned_len, st.sequence_length);
    assert_eq!(st.unique_len + st.multi_len, st.aligned_len);
    for i in 0..12 {
        assert!(!s.multi[i] || s.aligned[i]);
    }
}

#[test]
fn group_change_flushes_previous_group() {
    let mut agg = Aggregator::new();
    assert!(push(&mut agg, "a", 4, 0, vec![(4, Equal)]).is_none());
    let g = push(&mut agg, "b", 6, 1, vec![(2, Equal)]).unwrap();
    assert_eq!(g.name, b"a".to_vec());
    assert_eq!(g.stats.aligned_len, 4);
    assert_eq!(agg.totals.total_seq_len, 4);
    let g2 = push(&mut agg, "a", 4, 0, vec![(1, Equal)]).unwrap();
    assert_eq!(g2.name, b"b".to_vec());
    assert_eq!(uncovered_intervals(&g2.aligned), vec![Interval { start: 0, end: 1 }, Interval { start: 3, end: 6 }]);
    let g3 = agg.flush().unwrap().unwrap();
    assert_eq!(g3.stats.aligned_len, 1);
    assert_eq!(g3.stats.multi_len, 0);
    assert_eq!(agg.totals.total_seq_len, 14);
    assert_eq!(agg.totals.total_aligned, 7);
    assert_eq!(agg.totals.total_nonaligned, 7);
    assert!(agg.flush().unwrap().is_none());
}

#[test]
fn report_over_totals() {
    let mut t = RunningTotals::new();
    let mut s = CoverageState::new(b"q".to_vec(), 8);
    s.mark(&vec![(4, Equal)], 0).unwrap();
    s.mark(&vec![(2, Equal)], 2).unwrap();
    assert!(t.add(&s.stats()));
    assert_eq!(
        t.report(),
        Some(RatioReport { aligned: ratio(4, 8), unique: ratio(2, 8), multi: ratio(2, 8), nonaligned: ratio(4, 8) })
    );
}

#[test]
fn totals_refuse_overflow() {
    let mut t = RunningTotals::new();
    t.total_seq_len = u64::MAX - 2;
    t.total_nonaligned = u64::MAX - 2;
    let s = CoverageState::new(b"q".to_vec(), 3);
    let before = t;
    assert!(!t.add(&s.stats()));
    assert_eq!(t, before);
    let s2 = CoverageState::new(b"q".to_vec(), 2);
    assert!(t.add(&s2.stats()));
    assert_eq!(t.total_seq_len, u64::MAX);
}

#[test]
fn intervals_edges() {
    assert_eq!(uncovered_intervals(&vec![]), vec![]);
    assert_eq!(uncovered_intervals(&vec![true, true]), vec![]);
    assert_eq!(uncovered_intervals(&vec![false]), vec![Interval { start: 0, end: 1 }]);
    assert_eq!(
        uncovered_intervals(&vec![false, false, true, false, true, true, false]),
        vec![Interval { start: 0, end: 2 }, Interval { start: 3, end: 4 }, Interval { start: 6, end: 7 }]
    );
}

#[test]
fn intervals_partition_complement() {
    let mask = vec![true, false, false, true, false, true, true, false, false, false];
    let r = uncovered_intervals(&mask);
    for w in r.windows(2) {
        assert!(w[0].end < w[1].start);
    }
    for p in 0..mask.len() {
        let n = r.iter().filter(|iv| iv.start <= p && p < iv.end).count();
        assert_eq!(n, if mask[p] { 0 } else { 1 });
    }
}

#[test]
fn parse_record_reads_gaf_line() {
    let rec = parse_record(&gaf_line("read1", 10, 2, "5=2X1D3I")).unwrap();
    assert_eq!(rec.name, b"read1".to_vec());
    assert_eq!(rec.length, 10);
    assert_eq!(rec.start, 2);
    assert_eq!(rec.script, vec![(5, Equal), (2, Mismatch), (1, Deletion), (3, Insertion)]);
}

#[test]
fn parse_record_errors() {
    assert_eq!(parse_record(b"not a gaf line\n").unwrap_err(), RecordError::Unparsable);
    assert_eq!(parse_record(b"").unwrap_err(), RecordError::Unparsable);
    let no_cg = b"r\t10\t0\t10\t+\t>s1\t10\t0\t10\t10\t10\t60\tNM:i:0\n";
    assert_eq!(parse_record(no_cg).unwrap_err(), RecordError::MissingEditScript);
    let int_cg = b"r\t10\t0\t10\t+\t>s1\t10\t0\t10\t10\t10\t60\tcg:i:5\n";
    assert_eq!(parse_record(int_cg).unwrap_err(), RecordError::MissingEditScript);
    assert_eq!(parse_record(&gaf_line("r", 10, 0, "abc")).unwrap_err(), RecordError::MalformedEditScript);
    assert_eq!(parse_record(&gaf_line("r", 10, 0, "12345678901=")).unwrap_err(), RecordError::Unsupported);
    let bad_tag = b"r\t10\t0\t10\t+\t>s1\t10\t0\t10\t10\t10\t60\t1x:Z:abc\tcg:Z:10=\n";
    assert_eq!(parse_record(bad_tag).unwrap_err(), RecordError::Unsupported);
}

#[test]
fn first_cg_field_wins() {
    let line = b"r\t10\t0\t10\t+\t>s1\t10\t0\t10\t10\t10\t60\tcg:Z:4=\tcg:Z:10=\n";
    assert_eq!(parse_record(line).unwrap().script, vec![(4, Equal)]);
}

fn run(lines: &[Vec<u8>]) -> (Vec<(Vec<u8>, Vec<Interval>)>, Option<RatioReport>) {
    let mut agg = Aggregator::new();
    let mut out = Vec::new();
    for l in lines {
        if let LineOutcome::Pushed(Some(g)) = agg.push_line(l).unwrap() {
            out.push((g.name.clone(), uncovered_intervals(&g.aligned)));
        }
    }
    if let Some(g) = agg.flush().unwrap() {
        out.push((g.name.clone(), uncovered_intervals(&g.aligned)));
    }
    (out, agg.totals.report())
}

#[test]
fn pipeline_over_lines() {
    let lines = vec![
        gaf_line("q1", 10, 0, "5=5I"),
        b"garbage\n".to_vec(),
        gaf_line("q1", 10, 3, "4="),
        gaf_line("q2", 6, 0, "6M"),
    ];
    let (groups, rep) = run(&lines);
    assert_eq!(groups.len(), 2);
    assert_eq!(groups[0], (b"q1".to_vec(), vec![Interval { start: 7, end: 10 }]));
    assert_eq!(groups[1], (b"q2".to_vec(), vec![Interval { start: 0, end: 6 }]));
    assert_eq!(rep, Some(RatioReport { aligned: ratio(7, 16), unique: ratio(5, 16), multi: ratio(2, 16), nonaligned: ratio(9, 16) }));
}

#[test]
fn rerun_gives_identical_output() {
    let lines = vec![gaf_line("a", 8, 1, "3=2D2X2="), gaf_line("a", 8, 0, "4="), gaf_line("b", 5, 0, "2=")];
    assert_eq!(run(&lines), run(&lines));
}

#[test]
fn push_line_outcomes() {
    let mut agg = Aggregator::new();
    assert!(matches!(agg.push_line(b"x\ty\n"), Ok(LineOutcome::Skipped)));
    assert_eq!(
        agg.push_line(&gaf_line("r", 10, 0, "zz")).unwrap_err(),
        LineError::Record(RecordError::MalformedEditScript)
    );
    assert_eq!(
        agg.push_line(&gaf_line("r", 10, 5, "6=")).unwrap_err(),
        LineError::Coverage(CoverageError::OutOfRange { sequence: b"r".to_vec(), position: 10 })
    );
    assert!(agg.current.is_none());
}
