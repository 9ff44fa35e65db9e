use station_stats::aggmap::AggregationMap;
use station_stats::format::format_output;
use station_stats::pipeline::{aggregate, process_chunk, summarize};
use station_stats::PipelineError;

#[test]
fn three_records_two_keys() {
    let out = summarize(b"A;10.0\nB;-5.5\nA;20.0\n", 1).expect("run should succeed");
    assert_eq!(out, b"{A=10.0/15.0/20.0, B=-5.5/-5.5/-5.5}".to_vec());
}

#[test]
fn empty_input_renders_empty_braces() {
    let out = summarize(b"", 1).expect("empty input is a valid run");
    assert_eq!(out, b"{}".to_vec());
}

#[test]
fn line_without_delimiter_aborts() {
    let r = summarize(b"A;10.0\nBROKEN\n", 1);
    assert_eq!(r, Err(PipelineError::MalformedRecord));
}

#[test]
fn empty_key_aborts() {
    assert_eq!(summarize(b";5.0\n", 1), Err(PipelineError::MalformedRecord));
}

#[test]
fn numeral_outside_grammar_aborts() {
    assert_eq!(summarize(b"A;100.0\n", 1), Err(PipelineError::MalformedRecord));
    assert_eq!(summarize(b"A;1\n", 1), Err(PipelineError::MalformedRecord));
}

#[test]
fn empty_line_aborts() {
    assert_eq!(summarize(b"A;1.0\n\nB;2.0\n", 1), Err(PipelineError::MalformedRecord));
}

#[test]
fn oversized_line_aborts() {
    // chunk target is 21 / 10 = 2 bytes; the first candidate holds no
    // terminator although more data follows
    let r = summarize(b"ABCDEFGHIJ;1.0\nB;2.0\n", 10);
    assert_eq!(r, Err(PipelineError::LineTooLong));
}

#[test]
fn final_line_may_omit_terminator() {
    let out = summarize(b"A;1.0\nB;2.0", 1).expect("run should succeed");
    assert_eq!(out, b"{A=1.0/1.0/1.0, B=2.0/2.0/2.0}".to_vec());
}

#[test]
fn keys_sorted_by_byte_order() {
    let out = summarize(b"b;1.0\nB;2.0\na;3.0\nA;4.0\n", 1).expect("run should succeed");
    // upper-case bytes sort before lower-case ones
    assert_eq!(out, b"{A=4.0/4.0/4.0, B=2.0/2.0/2.0, a=3.0/3.0/3.0, b=1.0/1.0/1.0}".to_vec());
}

#[test]
fn output_identical_for_every_worker_count() {
    let mut input: Vec<u8> = Vec::new();
    for i in 0..200 {
        let key = ["alpha", "beta", "gamma", "delta"][i % 4];
        let line = format!("{};{}{}.{}\n", key, if i % 3 == 0 { "-" } else { "" }, i % 90, i % 10);
        input.extend_from_slice(line.as_bytes());
    }
    let reference = summarize(&input, 1).expect("single worker run");
    for workers in [2usize, 3, 5, 8, 16, 64] {
        let out = summarize(&input, workers).expect("multi worker run");
        assert_eq!(out, reference, "workers = {}", workers);
    }
}

#[test]
fn one_key_repeated_a_million_times() {
    let mut input: Vec<u8> = Vec::new();
    for _ in 0..1_000_000 {
        input.extend_from_slice(b"K;42.7\n");
    }
    let out = summarize(&input, 8).expect("run should succeed");
    assert_eq!(out, b"{K=42.7/42.7/42.7}".to_vec());
}

#[test]
fn mean_rounds_to_nearest_tenth_ties_away_from_zero() {
    // 10.0 and 10.1 average to 10.05, rendered 10.1
    let out = summarize(b"A;10.0\nA;10.1\n", 1).expect("run should succeed");
    assert_eq!(out, b"{A=10.0/10.1/10.1}".to_vec());
    // the negative tie rounds away from zero as well
    let out = summarize(b"A;-10.0\nA;-10.1\n", 1).expect("run should succeed");
    assert_eq!(out, b"{A=-10.1/-10.1/-10.0}".to_vec());
}

#[test]
fn partitioned_aggregation_matches_whole() {
    let g1: &[u8] = b"A;1.0\nB;2.0\n";
    let g2: &[u8] = b"A;3.0\nC;-4.0\n";
    let whole: &[u8] = b"A;1.0\nB;2.0\nA;3.0\nC;-4.0\n";
    let mut merged = process_chunk(g1).expect("first group");
    merged.merge(process_chunk(g2).expect("second group"));
    let direct = process_chunk(whole).expect("whole set");
    assert_eq!(format_output(&merged), format_output(&direct));
}

#[test]
fn merge_order_does_not_matter() {
    let g1: &[u8] = b"A;1.0\nB;2.0\n";
    let g2: &[u8] = b"A;3.0\nC;-4.0\n";
    let mut ab = process_chunk(g1).expect("first group");
    ab.merge(process_chunk(g2).expect("second group"));
    let mut ba = process_chunk(g2).expect("second group again");
    ba.merge(process_chunk(g1).expect("first group again"));
    assert_eq!(format_output(&ab), format_output(&ba));
}

#[test]
fn aggregate_exposes_per_key_statistics() {
    let m = aggregate(b"A;1.0\nA;2.0\nB;0.0\n", 1).expect("run should succeed");
    let a = m.get(b"A").expect("key A present");
    assert_eq!(a.count(), 2);
    assert_eq!(a.min().tenths(), 10);
    assert_eq!(a.max().tenths(), 20);
    assert_eq!(a.mean().tenths(), 15);
    let b = m.get(b"B").expect("key B present");
    assert_eq!(b.count(), 1);
    assert!(m.get(b"C").is_none());
}

#[test]
fn format_of_empty_map_is_braces() {
    let m = AggregationMap::new();
    assert_eq!(format_output(&m), b"{}".to_vec());
}

#[test]
fn grammar_extremes_pass_through() {
    let out = summarize(b"A;-99.9\nA;99.9\n", 1).expect("run should succeed");
    assert_eq!(out, b"{A=-99.9/0.0/99.9}".to_vec());
}

#[test]
fn keys_are_raw_byte_sequences() {
    let out = summarize(b"Z\xc3\xbcrich;10.0\n", 1).expect("run should succeed");
    assert_eq!(out, b"{Z\xc3\xbcrich=10.0/10.0/10.0}".to_vec());
}

#[test]
fn negative_zero_value_renders_as_zero() {
    let out = summarize(b"A;-0.0\n", 1).expect("run should succeed");
    assert_eq!(out, b"{A=0.0/0.0/0.0}".to_vec());
}
