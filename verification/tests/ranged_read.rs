use ranged_read::error::ReadError;
use ranged_read::fetch::{collect_results, FetchOutcome};
use ranged_read::pipeline::assemble_object;
use ranged_read::planner::plan;
use ranged_read::reassemble::{reassemble, ChunkResult};

fn make_object(n: usize) -> Vec<u8> {
    let mut v = Vec::new();
    for i in 0..n {
        v.push((i % 251) as u8);
    }
    v
}

fn outcomes_for(object: &[u8], entries: &[ranged_read::planner::ChunkPlan]) -> Vec<FetchOutcome> {
    let mut outcomes = Vec::new();
    for e in entries {
        let lo = e.offset as usize;
        let hi = (e.offset + e.length) as usize;
        outcomes.push(FetchOutcome::Fetched(object[lo..hi].to_vec()));
    }
    outcomes
}

#[test]
fn plan_concrete_1000_by_300() {
    let p = plan(1000, 0, 300).unwrap();
    let got: Vec<(usize, u64, u64)> = p.iter().map(|e| (e.index, e.offset, e.length)).collect();
    assert_eq!(got, vec![(0, 0, 300), (1, 300, 600 - 300), (2, 600, 300), (3, 900, 100)]);
}

#[test]
fn plan_idempotent() {
    let p1 = plan(987_654, 123, 4096).unwrap();
    let p2 = plan(987_654, 123, 4096).unwrap();
    assert_eq!(p1, p2);
}

#[test]
fn plan_empty_when_start_is_size() {
    let p = plan(1000, 1000, 300).unwrap();
    assert!(p.is_empty());
}

#[test]
fn plan_empty_object() {
    let p = plan(0, 0, 300).unwrap();
    assert!(p.is_empty());
}

#[test]
fn plan_rejects_start_beyond_size() {
    assert_eq!(plan(10, 11, 3), Err(ReadError::InvalidRange));
}

#[test]
fn plan_single_truncated_chunk() {
    let p = plan(100, 0, 300).unwrap();
    assert_eq!(p.len(), 1);
    assert_eq!((p[0].index, p[0].offset, p[0].length), (0, 0, 100));
}

#[test]
fn plan_exact_multiple() {
    let p = plan(600, 0, 300).unwrap();
    assert_eq!(p.len(), 2);
    assert_eq!((p[1].offset, p[1].length), (300, 300));
}

#[test]
fn plan_count_is_ceiling() {
    for (size, start, chunk, want) in
        [(1000, 0, 300, 4), (1000, 1, 300, 4), (1000, 101, 300, 3), (1, 0, 300, 1)]
    {
        let p = plan(size, start, chunk).unwrap();
        assert_eq!(p.len() as u64, want, "size {size} start {start} chunk {chunk}");
    }
}

#[test]
fn collect_reports_first_failed_chunk() {
    let p = plan(1000, 0, 300).unwrap();
    let object = make_object(1000);
    let mut outcomes = outcomes_for(&object, &p);
    outcomes[2] = FetchOutcome::Failed("connection reset".to_string());
    let r = collect_results(&p, &outcomes);
    assert_eq!(
        r,
        Err(ReadError::RemoteFetchError { index: 2, cause: "connection reset".to_string() })
    );
}

#[test]
fn collect_reports_short_payload() {
    let p = plan(1000, 0, 300).unwrap();
    let object = make_object(1000);
    let mut outcomes = outcomes_for(&object, &p);
    outcomes[1] = FetchOutcome::Fetched(vec![0u8; 299]);
    let r = collect_results(&p, &outcomes);
    assert_eq!(r, Err(ReadError::LengthMismatch { expected: 300, actual: 299 }));
}

#[test]
fn collect_rejects_wrong_outcome_count() {
    let p = plan(1000, 0, 300).unwrap();
    let object = make_object(1000);
    let mut outcomes = outcomes_for(&object, &p);
    outcomes.pop();
    assert_eq!(collect_results(&p, &outcomes), Err(ReadError::IncompleteResult));
}

#[test]
fn reassemble_restores_plan_order() {
    // Completion order is not assembly order: hand the chunks over shuffled.
    let object = make_object(1000);
    let results = vec![
        ChunkResult { index: 3, bytes: object[900..1000].to_vec() },
        ChunkResult { index: 0, bytes: object[0..300].to_vec() },
        ChunkResult { index: 2, bytes: object[600..900].to_vec() },
        ChunkResult { index: 1, bytes: object[300..600].to_vec() },
    ];
    let buf = reassemble(&results, 1000).unwrap();
    assert_eq!(buf, object);
}

#[test]
fn reassemble_order_does_not_matter() {
    // Two completion orders of the same chunks, as the two sharing
    // disciplines would produce them, give identical buffers.
    let object = make_object(900);
    let interleaved = vec![
        ChunkResult { index: 1, bytes: object[300..600].to_vec() },
        ChunkResult { index: 2, bytes: object[600..900].to_vec() },
        ChunkResult { index: 0, bytes: object[0..300].to_vec() },
    ];
    let sequential = vec![
        ChunkResult { index: 0, bytes: object[0..300].to_vec() },
        ChunkResult { index: 1, bytes: object[300..600].to_vec() },
        ChunkResult { index: 2, bytes: object[600..900].to_vec() },
    ];
    let a = reassemble(&interleaved, 900).unwrap();
    let b = reassemble(&sequential, 900).unwrap();
    assert_eq!(a, b);
    assert_eq!(a, object);
}

#[test]
fn reassemble_empty_is_empty_buffer() {
    let buf = reassemble(&Vec::new(), 0).unwrap();
    assert_eq!(buf.len(), 0);
}

#[test]
fn reassemble_rejects_duplicate_index() {
    let results = vec![
        ChunkResult { index: 0, bytes: vec![1, 2] },
        ChunkResult { index: 0, bytes: vec![3, 4] },
    ];
    assert_eq!(reassemble(&results, 4), Err(ReadError::IncompleteResult));
}

#[test]
fn reassemble_rejects_index_out_of_range() {
    let results = vec![
        ChunkResult { index: 0, bytes: vec![1, 2] },
        ChunkResult { index: 2, bytes: vec![3, 4] },
    ];
    assert_eq!(reassemble(&results, 4), Err(ReadError::IncompleteResult));
}

#[test]
fn reassemble_rejects_total_length_mismatch() {
    let results = vec![
        ChunkResult { index: 0, bytes: vec![1, 2] },
        ChunkResult { index: 1, bytes: vec![3, 4] },
    ];
    assert_eq!(reassemble(&results, 5), Err(ReadError::LengthMismatch { expected: 5, actual: 4 }));
}

#[test]
fn pipeline_round_trip_full_object() {
    let object = make_object(1000);
    let p = plan(1000, 0, 300).unwrap();
    let outcomes = outcomes_for(&object, &p);
    let buf = assemble_object(&p, &outcomes, 1000).unwrap();
    assert_eq!(buf, object);
}

#[test]
fn pipeline_round_trip_from_offset() {
    let object = make_object(1000);
    let p = plan(1000, 250, 300).unwrap();
    let outcomes = outcomes_for(&object, &p);
    let buf = assemble_object(&p, &outcomes, 750).unwrap();
    assert_eq!(buf, object[250..].to_vec());
}

#[test]
fn pipeline_empty_span_gives_empty_buffer() {
    let p = plan(1000, 1000, 300).unwrap();
    let buf = assemble_object(&p, &Vec::new(), 0).unwrap();
    assert_eq!(buf.len(), 0);
}

#[test]
fn pipeline_surfaces_fetch_failure() {
    // A single failed range read fails the whole run; nothing is assembled.
    let object = make_object(1000);
    let p = plan(1000, 0, 300).unwrap();
    let mut outcomes = outcomes_for(&object, &p);
    outcomes[3] = FetchOutcome::Failed("no such key".to_string());
    let r = assemble_object(&p, &outcomes, 1000);
    assert_eq!(
        r,
        Err(ReadError::RemoteFetchError { index: 3, cause: "no such key".to_string() })
    );
}

#[test]
fn pipeline_rejects_expected_length_mismatch() {
    let object = make_object(600);
    let p = plan(600, 0, 300).unwrap();
    let outcomes = outcomes_for(&object, &p);
    assert_eq!(
        assemble_object(&p, &outcomes, 601),
        Err(ReadError::LengthMismatch { expected: 601, actual: 600 })
    );
}
