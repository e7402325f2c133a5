use rsort::merge::{MergeError, MergeStep, Merger};
use rsort::pipeline::{merge_runs, sort_records};
use rsort::RecordFramer;
use rsort::order::compare_spans;
use rsort::record::compare_records;
use rsort::tournament::is_power_of_two;
use rsort::{
    fill_the_queue, internal_pool_sort, key_pos, locate, winner_tree_by_idx, ChunkBuilder,
    InternalNode, Queue, RawRecord, Segment,
};
use std::cmp::Ordering;

fn rec(text: &str, primary: &str, secondary: &str) -> RawRecord {
    RawRecord::with_keys(text.as_bytes().to_vec(), primary.as_bytes(), secondary.as_bytes())
}

fn text(r: &RawRecord) -> String {
    String::from_utf8(r.raw_record.clone()).unwrap()
}

fn le_u64s(vals: &[u64]) -> Vec<u8> {
    let mut out = Vec::new();
    for v in vals {
        out.extend_from_slice(&v.to_le_bytes());
    }
    out
}

/// Runs the merge state machine over runs held in memory.
fn merge_in_memory(runs: &[Vec<Segment>]) -> Result<Vec<RawRecord>, MergeError> {
    let mut m = Merger::new(runs.len())?;
    let mut out = Vec::new();
    loop {
        match m.step() {
            MergeStep::Load { run, segment } => m.deliver(run, runs[run].get(segment))?,
            MergeStep::Emit(r) => out.push(r),
            MergeStep::Done => return Ok(out),
        }
    }
}

fn sort_run(texts: &[&str], primary: &str, secondary: &str, queue_size: usize) -> Vec<Segment> {
    let mut pool: Vec<RawRecord> = texts.iter().map(|t| rec(t, primary, secondary)).collect();
    internal_pool_sort(&mut pool, queue_size)
}

#[test]
fn locate_finds_first_occurrence_to_line_end() {
    assert_eq!(locate(b"@url:", b"@\n@url:abc\n@x:1\n"), (2, 10));
    assert_eq!(locate(b"@x:", b"@x:1\n@x:2\n"), (0, 4));
}

#[test]
fn locate_runs_to_text_end_without_line_break() {
    assert_eq!(locate(b"@k:", b"@\n@k:zz"), (2, 7));
}

#[test]
fn locate_absent_pattern_gives_empty_span() {
    assert_eq!(locate(b"@k:", b"@\n@j:1\n"), (0, 0));
    assert_eq!(locate(b"@longer-than-text:", b"@k"), (0, 0));
}

#[test]
fn locate_empty_pattern_spans_first_line() {
    assert_eq!(locate(b"", b"ab\ncd"), (0, 2));
}

#[test]
fn key_pos_counts_bytes() {
    // "é" takes two bytes
    assert_eq!(key_pos("@k:", "é\n@k:v\n"), (3, 7));
    assert_eq!(key_pos("@none:", "é\n@k:v\n"), (0, 0));
}

#[test]
fn key_value_strips_pattern_from_each_matching_line() {
    let v = rsort::key_value("@a:", "@a:1\n@b:2\n@a:3");
    assert_eq!(v, vec!["1", "3"]);
    let none = rsort::key_value("@z:", "@a:1\n");
    assert!(none.is_empty());
}

#[test]
fn compare_spans_orders_bytes_and_prefixes() {
    let a = b"xabc".to_vec();
    let b = b"abd".to_vec();
    assert_eq!(compare_spans(&a, 1, 4, &b, 0, 3), Ordering::Less);
    assert_eq!(compare_spans(&a, 1, 3, &b, 0, 3), Ordering::Less);
    assert_eq!(compare_spans(&b, 0, 3, &a, 1, 3), Ordering::Greater);
    assert_eq!(compare_spans(&a, 1, 3, &b, 0, 2), Ordering::Equal);
}

#[test]
fn compare_records_uses_secondary_key_on_tie() {
    let a = rec("@p:1\n@s:b\n", "@p:", "@s:");
    let b = rec("@p:1\n@s:a\n", "@p:", "@s:");
    let c = rec("@p:0\n@s:z\n", "@p:", "@s:");
    assert_eq!(compare_records(&a, &b), Ordering::Greater);
    assert_eq!(compare_records(&c, &a), Ordering::Less);
    assert_eq!(compare_records(&a, &a), Ordering::Equal);
}

#[test]
fn missing_key_sorts_first() {
    let missing = rec("@\nno key here\n", "@p:", "@p:");
    let keyed = rec("@\n@p:a\n", "@p:", "@p:");
    assert_eq!(missing.key_pos[0], (0, 0));
    assert_eq!(compare_records(&missing, &keyed), Ordering::Less);
}

#[test]
fn internal_pool_sort_sorts_by_primary_then_secondary() {
    let mut pool = vec![
        rec("@p:b\n@s:1\n", "@p:", "@s:"),
        rec("@p:a\n@s:2\n", "@p:", "@s:"),
        rec("@p:b\n@s:0\n", "@p:", "@s:"),
        rec("@p:a\n@s:1\n", "@p:", "@s:"),
    ];
    let segs = internal_pool_sort(&mut pool, 1 << 20);
    let got: Vec<String> = pool.iter().map(text).collect();
    assert_eq!(got, vec!["@p:a\n@s:1\n", "@p:a\n@s:2\n", "@p:b\n@s:0\n", "@p:b\n@s:1\n"]);
    assert_eq!(segs.len(), 1);
    assert_eq!(segs[0].raw, b"@p:a\n@s:1\n@p:a\n@s:2\n@p:b\n@s:0\n@p:b\n@s:1\n".to_vec());
}

#[test]
fn internal_pool_sort_writes_exact_index_bytes() {
    let mut pool = vec![rec("@k:b\n", "@k:", "@q:"), rec("x@k:a\n", "@k:", "@q:")];
    let segs = internal_pool_sort(&mut pool, 100);
    assert_eq!(segs.len(), 1);
    assert_eq!(segs[0].raw, b"x@k:a\n@k:b\n".to_vec());
    assert_eq!(segs[0].offsets, le_u64s(&[0, 6, 11]));
    // positions are counted from the start of the segment's raw bytes
    assert_eq!(segs[0].key_map, le_u64s(&[1, 5, 0, 0, 6, 10, 6, 6]));
}

#[test]
fn internal_pool_sort_cuts_segments_greedily() {
    // each record is 6 bytes; 13 bytes hold two of them
    let mut pool: Vec<RawRecord> =
        ["@k:5\n\n", "@k:1\n\n", "@k:4\n\n", "@k:2\n\n", "@k:3\n\n"].iter().map(|t| rec(t, "@k:", "@k:")).collect();
    let segs = internal_pool_sort(&mut pool, 13);
    let sizes: Vec<usize> = segs.iter().map(|s| s.raw.len()).collect();
    assert_eq!(sizes, vec![12, 12, 6]);
    assert_eq!(segs[2].raw, b"@k:5\n\n".to_vec());
}

#[test]
fn internal_pool_sort_gives_oversized_record_its_own_segment() {
    let mut pool = vec![rec("@k:1\n", "@k:", "@k:"), rec("@k:2 long record\n", "@k:", "@k:"), rec("@k:3\n", "@k:", "@k:")];
    let segs = internal_pool_sort(&mut pool, 8);
    let sizes: Vec<usize> = segs.iter().map(|s| s.raw.len()).collect();
    assert_eq!(sizes, vec![5, 17, 5]);
}

#[test]
fn internal_pool_sort_of_empty_pool_writes_nothing() {
    let mut pool: Vec<RawRecord> = Vec::new();
    assert!(internal_pool_sort(&mut pool, 10).is_empty());
}

#[test]
fn segments_read_back_reproduce_sorted_pool() {
    let mut pool: Vec<RawRecord> = ["@k:9\n@s:x\n", "@k:3\n", "@s:q\n@k:7\n", "@k:3\n@s:a\n"]
        .iter()
        .map(|t| rec(t, "@k:", "@s:"))
        .collect();
    let segs = internal_pool_sort(&mut pool, 12);
    assert!(segs.len() > 1);
    let mut q = Queue::new_queue();
    let mut back: Vec<RawRecord> = Vec::new();
    loop {
        let seg = segs.get(q.current_chunk);
        fill_the_queue(&mut q, seg);
        if q.end_of_record {
            break;
        }
        while let Some(r) = q.queue.pop_front() {
            back.push(r);
        }
    }
    assert_eq!(back.len(), pool.len());
    for (a, b) in back.iter().zip(pool.iter()) {
        assert_eq!(a.raw_record, b.raw_record);
        assert_eq!(a.key_pos, b.key_pos);
        assert!(!a.record_end);
    }
}

#[test]
fn fill_the_queue_ends_run_on_missing_segment() {
    let mut q = Queue::new_queue();
    fill_the_queue(&mut q, None);
    assert!(q.end_of_record);
    assert_eq!(q.current_chunk, 0);
    assert!(q.queue.is_empty());
}

#[test]
fn fill_the_queue_leaves_nonempty_queue_alone() {
    let segs = sort_run(&["@k:1\n"], "@k:", "@k:", 100);
    let mut q = Queue::new_queue();
    fill_the_queue(&mut q, Some(&segs[0]));
    assert_eq!(q.queue.len(), 1);
    assert_eq!(q.current_chunk, 1);
    fill_the_queue(&mut q, Some(&segs[0]));
    assert_eq!(q.queue.len(), 1);
    assert_eq!(q.current_chunk, 1);
}

#[test]
fn fill_the_queue_stops_at_malformed_offsets() {
    let seg = Segment {
        raw: b"aaabbbccc".to_vec(),
        offsets: le_u64s(&[0, 3, 2, 9]),
        key_map: le_u64s(&[0, 0, 0, 0, 3, 3, 3, 3, 2, 2, 2, 2]),
    };
    let mut q = Queue::new_queue();
    fill_the_queue(&mut q, Some(&seg));
    assert_eq!(q.queue.len(), 1);
    assert_eq!(q.queue[0].raw_record, b"aaa".to_vec());
    let past_end = Segment { raw: b"ab".to_vec(), offsets: le_u64s(&[0, 5]), key_map: le_u64s(&[0, 0, 0, 0]) };
    let mut q2 = Queue::new_queue();
    fill_the_queue(&mut q2, Some(&past_end));
    assert!(q2.queue.is_empty());
    assert_eq!(q2.current_chunk, 1);
}

#[test]
fn fill_the_queue_makes_key_spans_record_relative() {
    let seg = Segment {
        raw: b"abcdefgh".to_vec(),
        offsets: le_u64s(&[0, 3, 8]),
        key_map: le_u64s(&[0, 1, 1, 3, 4, 6, 3, 3]),
    };
    let mut q = Queue::new_queue();
    fill_the_queue(&mut q, Some(&seg));
    assert_eq!(q.queue.len(), 2);
    assert_eq!(q.queue[1].raw_record, b"defgh".to_vec());
    assert_eq!(q.queue[1].key_pos, vec![(1, 3), (0, 0)]);
}

fn tree(k: usize) -> Vec<InternalNode> {
    (0..k)
        .map(|n| if n >= 1 && 2 * n >= k { InternalNode::new_leaf_inode() } else { InternalNode::new_non_leaf_inode() })
        .collect()
}

fn ext(keys: &[Option<&str>]) -> Vec<Option<RawRecord>> {
    let mut v: Vec<Option<RawRecord>> = keys.iter().map(|k| k.map(|t| rec(t, "@k:", "@k:"))).collect();
    v.push(Some(RawRecord::new_raw_record()));
    v
}

#[test]
fn winner_tree_picks_minimum() {
    let mut nodes = tree(4);
    let e = ext(&[Some("@k:30"), Some("@k:10"), None, Some("@k:20")]);
    assert_eq!(winner_tree_by_idx(&mut nodes, &e), 1);
}

#[test]
fn winner_tree_breaks_ties_to_the_left() {
    let mut nodes = tree(4);
    let e = ext(&[Some("@k:5"), Some("@k:7"), Some("@k:5"), Some("@k:5")]);
    assert_eq!(winner_tree_by_idx(&mut nodes, &e), 0);
    let mut nodes = tree(4);
    let e = ext(&[Some("@k:9"), Some("@k:7"), Some("@k:5"), Some("@k:5")]);
    assert_eq!(winner_tree_by_idx(&mut nodes, &e), 2);
}

#[test]
fn winner_tree_all_terminators_gives_terminator_index() {
    let mut nodes = tree(4);
    let e = ext(&[None, None, None, None]);
    assert_eq!(winner_tree_by_idx(&mut nodes, &e), 4);
    assert!(nodes[1..].iter().all(|n| n.ptr.is_none()));
}

#[test]
fn winner_tree_resets_exactly_the_winner_path() {
    let mut nodes = tree(8);
    let e = ext(&[
        Some("@k:8"),
        Some("@k:7"),
        Some("@k:6"),
        Some("@k:5"),
        Some("@k:1"),
        Some("@k:4"),
        Some("@k:3"),
        Some("@k:2"),
    ]);
    assert_eq!(winner_tree_by_idx(&mut nodes, &e), 4);
    // external node 4 sits under leaf 6, under node 3, under the root 1
    let reset: Vec<usize> = (1..8).filter(|&n| nodes[n].ptr.is_none()).collect();
    assert_eq!(reset, vec![1, 3, 6]);
    assert_eq!(nodes[2].ptr, Some(3));
    assert_eq!(nodes[7].ptr, Some(7));
}

#[test]
fn winner_tree_with_one_run() {
    let mut nodes = tree(1);
    assert_eq!(winner_tree_by_idx(&mut nodes, &ext(&[Some("@k:1")])), 0);
    assert_eq!(winner_tree_by_idx(&mut nodes, &ext(&[None])), 1);
}

#[test]
fn merge_two_runs_interleaves_keys() {
    let a = sort_run(&["key=10", "key=30"], "key=", "key=", 1 << 20);
    let b = sort_run(&["key=20"], "key=", "key=", 1 << 20);
    let out = merge_in_memory(&[a, b]).unwrap();
    let got: Vec<String> = out.iter().map(text).collect();
    assert_eq!(got, vec!["key=10", "key=20", "key=30"]);
}

#[test]
fn merge_without_keys_keeps_every_byte() {
    let input = "@\nB\n@\nA\n@\nA\n";
    let records = ["@\nB\n", "@\nA\n", "@\nA\n"];
    let mut pool: Vec<RawRecord> = records.iter().map(|t| rec(t, "@absent:", "@absent:")).collect();
    assert!(pool.iter().all(|r| r.key_pos == vec![(0, 0), (0, 0)]));
    let segs = internal_pool_sort(&mut pool, 1 << 20);
    let out = merge_in_memory(&[segs]).unwrap();
    let total: usize = out.iter().map(|r| r.raw_record.len()).sum();
    assert_eq!(total, input.len());
    let mut got: Vec<String> = out.iter().map(text).collect();
    got.sort();
    assert_eq!(got, vec!["@\nA\n", "@\nA\n", "@\nB\n"]);
}

#[test]
fn merge_single_run_emits_it_unchanged() {
    let segs = sort_run(&["@k:3\n", "@k:1\n", "@k:2\n", "@k:4\n"], "@k:", "@k:", 10);
    assert!(segs.len() > 1);
    let out = merge_in_memory(&[segs]).unwrap();
    let got: Vec<String> = out.iter().map(text).collect();
    assert_eq!(got, vec!["@k:1\n", "@k:2\n", "@k:3\n", "@k:4\n"]);
}

#[test]
fn merge_four_runs_with_segments_is_sorted_and_complete() {
    let runs = vec![
        sort_run(&["@k:e", "@k:a", "@k:m"], "@k:", "@k:", 8),
        sort_run(&["@k:b", "@k:z"], "@k:", "@k:", 8),
        sort_run(&[], "@k:", "@k:", 8),
        sort_run(&["@k:a", "@k:c", "@k:y", "@k:d"], "@k:", "@k:", 8),
    ];
    let out = merge_in_memory(&runs).unwrap();
    let got: Vec<String> = out.iter().map(text).collect();
    assert_eq!(got, vec!["@k:a", "@k:a", "@k:b", "@k:c", "@k:d", "@k:e", "@k:m", "@k:y", "@k:z"]);
}

#[test]
fn merger_rejects_run_count_not_power_of_two() {
    assert_eq!(Merger::new(3).err(), Some(MergeError::BadRunCount));
    assert_eq!(Merger::new(0).err(), Some(MergeError::BadRunCount));
    assert!(Merger::new(8).is_ok());
    assert!(is_power_of_two(1));
    assert!(!is_power_of_two(6));
}

#[test]
fn merger_rejects_unknown_run() {
    let mut m = Merger::new(2).unwrap();
    assert_eq!(m.deliver(2, None), Err(MergeError::NoSuchRun));
}

#[test]
fn merger_rejects_out_of_order_segment() {
    let mut m = Merger::new(1).unwrap();
    let seg = Segment {
        raw: b"@k:2@k:1".to_vec(),
        offsets: le_u64s(&[0, 4, 8]),
        key_map: le_u64s(&[0, 4, 0, 4, 4, 8, 4, 8]),
    };
    assert!(matches!(m.step(), MergeStep::Load { run: 0, segment: 0 }));
    assert_eq!(m.deliver(0, Some(&seg)), Err(MergeError::OutOfOrder));
    assert!(matches!(m.step(), MergeStep::Done));
}

#[test]
fn merger_rejects_segment_below_emitted_record() {
    let first = sort_run(&["@k:5"], "@k:", "@k:", 100);
    let lower = sort_run(&["@k:1"], "@k:", "@k:", 100);
    let mut m = Merger::new(1).unwrap();
    assert!(matches!(m.step(), MergeStep::Load { run: 0, segment: 0 }));
    m.deliver(0, Some(&first[0])).unwrap();
    assert!(matches!(m.step(), MergeStep::Emit(_)));
    assert!(matches!(m.step(), MergeStep::Load { run: 0, segment: 1 }));
    assert_eq!(m.deliver(0, Some(&lower[0])), Err(MergeError::OutOfOrder));
}

#[test]
fn merger_refuses_unnumbered_segment() {
    let mut m = Merger::new(1).unwrap();
    m.queues[0].current_chunk = usize::MAX;
    let seg = sort_run(&["@k:1"], "@k:", "@k:", 100);
    assert_eq!(m.deliver(0, Some(&seg[0])), Err(MergeError::TooManySegments));
    assert_eq!(m.deliver(0, None), Ok(()));
    assert!(m.queues[0].end_of_record);
}

#[test]
fn chunk_builder_flushes_before_exceeding_budget() {
    let mut b = ChunkBuilder::new(10);
    assert!(b.push(rec("aaaa", "@", "@")).is_none());
    assert!(b.push(rec("bbbbbb", "@", "@")).is_none());
    let (id, chunk) = b.push(rec("c", "@", "@")).unwrap();
    assert_eq!(id, 0);
    assert_eq!(chunk.len(), 2);
    assert_eq!(b.pool.len(), 1);
    assert_eq!(b.pool_size, 1);
    let (id, last) = b.finish().unwrap();
    assert_eq!(id, 1);
    assert_eq!(text(&last[0]), "c");
}

#[test]
fn chunk_builder_keeps_oversized_record_alone() {
    let mut b = ChunkBuilder::new(3);
    assert!(b.push(rec("toolong", "@", "@")).is_none());
    let (id, chunk) = b.push(rec("x", "@", "@")).unwrap();
    assert_eq!((id, chunk.len()), (0, 1));
    assert!(ChunkBuilder::new(3).finish().is_none());
}

#[test]
fn merge_runs_merges_segmented_runs() {
    let runs = vec![
        sort_run(&["@k:3\n", "@k:9\n", "@k:1\n"], "@k:", "@k:", 10),
        sort_run(&["@k:2\n", "@k:8\n"], "@k:", "@k:", 10),
    ];
    let out = merge_runs(&runs).unwrap();
    let got: Vec<String> = out.iter().map(text).collect();
    assert_eq!(got, vec!["@k:1\n", "@k:2\n", "@k:3\n", "@k:8\n", "@k:9\n"]);
}

#[test]
fn merge_runs_with_no_records_is_empty() {
    let runs: Vec<Vec<Segment>> = vec![Vec::new(), Vec::new()];
    assert!(merge_runs(&runs).unwrap().is_empty());
}

#[test]
fn merge_runs_rejects_bad_run_count() {
    let runs: Vec<Vec<Segment>> = vec![Vec::new(), Vec::new(), Vec::new()];
    assert_eq!(merge_runs(&runs).err(), Some(MergeError::BadRunCount));
}

#[test]
fn merge_runs_rejects_unsorted_run() {
    let high = sort_run(&["@k:7"], "@k:", "@k:", 100);
    let low = sort_run(&["@k:1"], "@k:", "@k:", 100);
    let run = vec![high.into_iter().next().unwrap(), low.into_iter().next().unwrap()];
    assert_eq!(merge_runs(&vec![run]).err(), Some(MergeError::OutOfOrder));
}

#[test]
fn sort_records_sorts_across_chunks_and_segments() {
    let texts = ["@k:5\n", "@k:3\n@s:b\n", "@k:9\n", "@k:3\n@s:a\n", "@k:1\n", "@k:7\n", "no key\n"];
    let records: Vec<RawRecord> = texts.iter().map(|t| rec(t, "@k:", "@s:")).collect();
    let out = sort_records(&records, 12, 7);
    let got: Vec<String> = out.iter().map(text).collect();
    assert_eq!(got, vec!["no key\n", "@k:1\n", "@k:3\n@s:a\n", "@k:3\n@s:b\n", "@k:5\n", "@k:7\n", "@k:9\n"]);
}

#[test]
fn sort_records_without_keys_keeps_every_byte() {
    let input = "@\nB\n@\nA\n@\nA\n";
    let records: Vec<RawRecord> = ["@\nB\n", "@\nA\n", "@\nA\n"].iter().map(|t| rec(t, "@absent:", "@absent:")).collect();
    let out = sort_records(&records, 8, 4);
    let total: usize = out.iter().map(|r| r.raw_record.len()).sum();
    assert_eq!(total, input.len());
    assert_eq!(out.len(), 3);
}

#[test]
fn sort_records_of_nothing_is_empty() {
    assert!(sort_records(&Vec::new(), 10, 10).is_empty());
}

fn frame(input: &str, begin: &str) -> Vec<Vec<u8>> {
    let mut framer = RecordFramer::new(begin.as_bytes().to_vec());
    let mut out = Vec::new();
    for line in input.split_inclusive('\n') {
        if let Some(r) = framer.feed_line(line.as_bytes()) {
            out.push(r);
        }
    }
    if let Some(r) = framer.finish() {
        out.push(r);
    }
    out
}

#[test]
fn framer_cuts_records_at_begin_lines() {
    let recs = frame("@\nB\n@\nA\n@\nA\n", "@\n");
    assert_eq!(recs, vec![b"@\nB\n".to_vec(), b"@\nA\n".to_vec(), b"@\nA\n".to_vec()]);
}

#[test]
fn framer_keeps_leading_lines_with_first_record() {
    let recs = frame("junk\n@\nx\n", "@\n");
    assert_eq!(recs, vec![b"junk\n".to_vec(), b"@\nx\n".to_vec()]);
    assert!(frame("", "@\n").is_empty());
}

#[test]
fn framed_input_without_keys_sorts_to_same_byte_count() {
    let input = "@\nB\n@\nA\n@\nA\n";
    let records: Vec<RawRecord> = frame(input, "@\n")
        .into_iter()
        .map(|t| RawRecord::with_keys(t, b"@absent:", b"@absent:"))
        .collect();
    assert!(records.iter().all(|r| r.key_pos == vec![(0, 0), (0, 0)]));
    let out = sort_records(&records, 1 << 20, 1 << 20);
    let bytes: Vec<u8> = out.iter().flat_map(|r| r.raw_record.clone()).collect();
    assert_eq!(bytes.len(), input.len());
}
