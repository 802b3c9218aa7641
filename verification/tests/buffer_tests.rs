use shuffly::batch::MAX_OPEN_OUTPUT_FILES;
use shuffly::buffer::LineBuffer;
use shuffly::flush::{group_by_bucket, plan_flush, BucketWrite};

fn entry(bucket: usize, line: &str) -> (usize, String) {
    (bucket, line.to_string())
}

fn shape(writes: &[BucketWrite]) -> Vec<(usize, Vec<String>)> {
    writes.iter().map(|w| (w.bucket, w.lines.clone())).collect()
}

fn lines(items: &[&str]) -> Vec<String> {
    items.iter().map(|s| s.to_string()).collect()
}

#[test]
fn a_new_buffer_is_empty() {
    let buffer = LineBuffer::new();
    assert!(buffer.is_empty());
    assert!(!buffer.is_full(1));
    assert!(buffer.is_full(0));
}

#[test]
fn the_buffer_counts_bytes() {
    let mut buffer = LineBuffer::new();
    buffer.add_line(0, "abc".to_string());
    assert!(!buffer.is_empty());
    assert!(buffer.is_full(3));
    assert!(!buffer.is_full(4));
    buffer.add_line(1, "de".to_string());
    assert!(buffer.is_full(5));
    assert!(!buffer.is_full(6));
}

#[test]
fn the_buffer_counts_bytes_not_characters() {
    let mut buffer = LineBuffer::new();
    buffer.add_line(0, "é".to_string());
    assert!(buffer.is_full(2));
    assert!(!buffer.is_full(3));
    buffer.add_line(0, "\u{1F600}".to_string());
    assert!(buffer.is_full(6));
    assert!(!buffer.is_full(7));
}

#[test]
fn an_empty_line_adds_no_bytes() {
    let mut buffer = LineBuffer::new();
    buffer.add_line(2, String::new());
    assert!(!buffer.is_empty());
    assert!(!buffer.is_full(1));
}

#[test]
fn clear_empties_the_buffer() {
    let mut buffer = LineBuffer::new();
    buffer.add_line(0, "abc".to_string());
    buffer.clear();
    assert!(buffer.is_empty());
    assert!(!buffer.is_full(1));
    buffer.add_line(0, "x".to_string());
    assert!(buffer.is_full(1));
    assert!(!buffer.is_full(2));
}

#[test]
fn drain_hands_out_the_lines_in_order() {
    let mut buffer = LineBuffer::new();
    buffer.add_line(1, "a".to_string());
    buffer.add_line(0, "b".to_string());
    buffer.add_line(1, "c".to_string());
    let items = buffer.drain();
    assert_eq!(items, vec![entry(1, "a"), entry(0, "b"), entry(1, "c")]);
    assert!(buffer.is_empty());
    assert!(!buffer.is_full(1));
}

#[test]
fn groups_come_by_ascending_bucket() {
    let items = vec![entry(2, "a"), entry(0, "b"), entry(2, "c"), entry(0, "d"), entry(3, "e")];
    let writes = group_by_bucket(items, 5);
    assert_eq!(
        shape(&writes),
        vec![(0, lines(&["b", "d"])), (2, lines(&["a", "c"])), (3, lines(&["e"]))]
    );
}

#[test]
fn groups_of_nothing() {
    assert!(group_by_bucket(Vec::new(), 4).is_empty());
    assert!(group_by_bucket(Vec::new(), 0).is_empty());
}

#[test]
fn groups_keep_duplicates() {
    let items = vec![entry(0, "x"), entry(0, "x"), entry(0, "x")];
    let writes = group_by_bucket(items, 1);
    assert_eq!(shape(&writes), vec![(0, lines(&["x", "x", "x"]))]);
}

#[test]
fn a_small_flush_is_one_batch() {
    let items = vec![entry(1, "a"), entry(0, "b")];
    let plan = plan_flush(items, 2);
    assert_eq!(plan.len(), 1);
    assert_eq!(shape(&plan[0]), vec![(0, lines(&["b"])), (1, lines(&["a"]))]);
}

#[test]
fn a_flush_of_nothing_has_no_batch() {
    assert!(plan_flush(Vec::new(), 3).is_empty());
}

#[test]
fn a_wide_flush_is_batched_by_the_bound_on_open_files() {
    let buckets: usize = 300;
    let mut items: Vec<(usize, String)> = Vec::new();
    for b in 0..buckets {
        items.push((b, format!("line {}", b)));
    }
    let plan = plan_flush(items, buckets);
    assert_eq!(plan.len(), 3);
    assert_eq!(plan[0].len(), MAX_OPEN_OUTPUT_FILES);
    assert_eq!(plan[1].len(), MAX_OPEN_OUTPUT_FILES);
    assert_eq!(plan[2].len(), 300 - 2 * MAX_OPEN_OUTPUT_FILES);
    let mut expected: usize = 0;
    for batch in &plan {
        for write in batch {
            assert_eq!(write.bucket, expected);
            assert_eq!(write.lines, vec![format!("line {}", expected)]);
            expected += 1;
        }
    }
    assert_eq!(expected, buckets);
}
