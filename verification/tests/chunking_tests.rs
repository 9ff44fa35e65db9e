use station_stats::chunking::create_chunks;
use station_stats::PipelineError;

#[test]
fn empty_region_yields_no_chunks() {
    let chunks = create_chunks(b"", 4).expect("empty split succeeds");
    assert_eq!(chunks.len(), 0);
}

#[test]
fn small_region_yields_one_chunk() {
    let data: &[u8] = b"A;1.0\n";
    let chunks = create_chunks(data, 1).expect("split succeeds");
    assert_eq!(chunks.len(), 1);
    assert_eq!(chunks[0].start, 0);
    assert_eq!(chunks[0].end, data.len());
}

#[test]
fn terminator_less_tail_joins_final_chunk() {
    let data: &[u8] = b"A;1.0\nB;2.0";
    let chunks = create_chunks(data, 1).expect("split succeeds");
    assert_eq!(chunks.len(), 1);
    assert_eq!(chunks[0].end, data.len());
}

#[test]
fn two_workers_split_on_line_boundary() {
    let data: &[u8] = b"AA;1.0\nBB;2.0\n";
    let chunks = create_chunks(data, 2).expect("split succeeds");
    assert_eq!(chunks.len(), 2);
    assert_eq!((chunks[0].start, chunks[0].end), (0, 7));
    assert_eq!((chunks[1].start, chunks[1].end), (7, 14));
    // each chunk ends just after a line terminator
    assert_eq!(data[chunks[0].end - 1], b'\n');
}

#[test]
fn chunks_concatenate_to_the_region() {
    let data: &[u8] = b"north;12.3\nsouth;-4.5\neast;0.1\nwest;9.9\n";
    // beyond three workers the chunk target drops below the longest line
    for workers in 1..4usize {
        let chunks = create_chunks(data, workers).expect("split succeeds");
        assert!(1 <= chunks.len() && chunks.len() <= workers);
        let mut rebuilt: Vec<u8> = Vec::new();
        let mut expected_start = 0usize;
        for c in &chunks {
            assert_eq!(c.start, expected_start);
            assert!(c.end == data.len() || data[c.end - 1] == b'\n');
            rebuilt.extend_from_slice(&data[c.start..c.end]);
            expected_start = c.end;
        }
        assert_eq!(expected_start, data.len());
        assert_eq!(rebuilt, data.to_vec());
    }
}

#[test]
fn chunk_count_never_exceeds_worker_count() {
    // the first candidate window ends mid-line, so the walk cuts back to
    // the terminator at offset zero; the second worker takes the remainder
    let data: &[u8] = b"\nAAAA\nAAAA";
    let chunks = create_chunks(data, 2).expect("split succeeds");
    assert_eq!(chunks.len(), 2);
    assert_eq!((chunks[0].start, chunks[0].end), (0, 1));
    assert_eq!((chunks[1].start, chunks[1].end), (1, 10));
}

#[test]
fn short_lines_do_not_multiply_chunks() {
    let mut data: Vec<u8> = Vec::new();
    for _ in 0..10 {
        data.extend_from_slice(b"A;1.0\n");
    }
    for workers in 1..8usize {
        let chunks = create_chunks(&data, workers).expect("split succeeds");
        assert!(1 <= chunks.len() && chunks.len() <= workers);
        assert_eq!(chunks.last().unwrap().end, data.len());
    }
}

#[test]
fn candidate_without_terminator_is_refused() {
    let data: &[u8] = b"ABCDEFGHIJ;1.0\nB;2.0\n";
    assert_eq!(create_chunks(data, 10), Err(PipelineError::LineTooLong));
}
