use shuffly::distribute::{Distributor, MAX_BUFFER_SIZE};
use shuffly::rotation::ReaderRotation;
use shuffly::emit::{retain_non_blank, Emitter};
use shuffly::flush::BucketWrite;

fn lines(items: &[&str]) -> Vec<String> {
    items.iter().map(|s| s.to_string()).collect()
}

fn shape(plan: &[Vec<BucketWrite>]) -> Vec<Vec<(usize, Vec<String>)>> {
    plan.iter()
        .map(|batch| batch.iter().map(|w| (w.bucket, w.lines.clone())).collect())
        .collect()
}

fn sorted(mut items: Vec<String>) -> Vec<String> {
    items.sort();
    items
}

#[test]
fn the_flush_threshold_is_one_gibibyte() {
    assert_eq!(MAX_BUFFER_SIZE, 1073741824);
}

#[test]
fn a_distributor_reports_its_buckets() {
    assert_eq!(Distributor::new(1, None).bucket_count(), 1);
    assert_eq!(Distributor::new(12, Some(3)).bucket_count(), 12);
    assert_eq!(Distributor::with_threshold(5, Some(3), 10).bucket_count(), 5);
}

#[test]
fn lines_wait_until_the_threshold_is_reached() {
    let mut d = Distributor::with_threshold(3, Some(1), 10);
    assert!(d.assign("abcd".to_string(), 2).is_none());
    assert!(d.assign("efgh".to_string(), 0).is_none());
    let plan = d.assign("ij".to_string(), 2).expect("ten bytes are buffered");
    assert_eq!(
        shape(&plan),
        vec![vec![(0, lines(&["efgh"])), (2, lines(&["abcd", "ij"]))]]
    );
    assert!(d.finish().is_none());
}

#[test]
fn the_buffer_is_empty_after_a_flush() {
    let mut d = Distributor::with_threshold(2, None, 4);
    assert!(d.assign("abcd".to_string(), 1).is_some());
    assert!(d.assign("x".to_string(), 0).is_none());
    let plan = d.finish().expect("one line is buffered");
    assert_eq!(shape(&plan), vec![vec![(0, lines(&["x"]))]]);
}

#[test]
fn a_threshold_of_zero_flushes_every_line() {
    let mut d = Distributor::with_threshold(2, None, 0);
    let plan = d.assign(String::from("a"), 1).expect("every line is flushed");
    assert_eq!(shape(&plan), vec![vec![(1, lines(&["a"]))]]);
    let plan = d.assign(String::from("b"), 0).expect("every line is flushed");
    assert_eq!(shape(&plan), vec![vec![(0, lines(&["b"]))]]);
    assert!(d.finish().is_none());
}

#[test]
fn finish_without_lines_has_no_plan() {
    let mut d = Distributor::new(4, Some(0));
    assert!(d.finish().is_none());
    assert!(d.finish().is_none());
}

#[test]
fn finish_hands_out_what_is_left() {
    let mut d = Distributor::new(4, Some(0));
    assert!(d.assign("one".to_string(), 3).is_none());
    assert!(d.assign("two".to_string(), 3).is_none());
    assert!(d.assign("three".to_string(), 1).is_none());
    let plan = d.finish().expect("three lines are buffered");
    assert_eq!(
        shape(&plan),
        vec![vec![(1, lines(&["three"])), (3, lines(&["one", "two"]))]]
    );
    assert!(d.finish().is_none());
}

#[test]
fn blank_lines_are_dropped_at_ingestion() {
    let mut d = Distributor::with_threshold(1, Some(5), 0);
    assert!(d.offer(String::new()).is_none());
    assert!(d.offer("   ".to_string()).is_none());
    assert!(d.offer("\t".to_string()).is_none());
    let plan = d.offer("x".to_string()).expect("every line is flushed");
    assert_eq!(shape(&plan), vec![vec![(0, lines(&["x"]))]]);
    assert!(d.finish().is_none());
}

#[test]
fn offered_lines_keep_their_white_space() {
    let mut d = Distributor::new(1, Some(5));
    assert!(d.offer("  x  ".to_string()).is_none());
    let plan = d.finish().expect("one line is buffered");
    assert_eq!(shape(&plan), vec![vec![(0, lines(&["  x  "]))]]);
}

#[test]
fn offered_lines_land_in_a_bucket_of_the_run() {
    let mut d = Distributor::new(7, Some(13));
    for i in 0..500 {
        assert!(d.offer(format!("line {}", i)).is_none());
    }
    let plan = d.finish().expect("lines are buffered");
    let mut count: usize = 0;
    let mut all: Vec<String> = Vec::new();
    for batch in plan {
        for write in batch {
            assert!(write.bucket < 7);
            assert!(!write.lines.is_empty());
            count += write.lines.len();
            all.extend(write.lines);
        }
    }
    assert_eq!(count, 500);
    let expected: Vec<String> = (0..500).map(|i| format!("line {}", i)).collect();
    assert_eq!(sorted(all), sorted(expected));
}

#[test]
fn the_same_seed_gives_the_same_assignment() {
    let mut one = Distributor::new(5, Some(21));
    let mut two = Distributor::new(5, Some(21));
    for i in 0..200 {
        one.offer(format!("line {}", i));
        two.offer(format!("line {}", i));
    }
    let a = one.finish().expect("lines are buffered");
    let b = two.finish().expect("lines are buffered");
    assert_eq!(shape(&a), shape(&b));
}

#[test]
fn blank_lines_do_not_disturb_the_assignment() {
    let mut one = Distributor::new(5, Some(21));
    let mut two = Distributor::new(5, Some(21));
    for i in 0..200 {
        one.offer(format!("line {}", i));
        two.offer(String::from("  "));
        two.offer(format!("line {}", i));
    }
    let a = one.finish().expect("lines are buffered");
    let b = two.finish().expect("lines are buffered");
    assert_eq!(shape(&a), shape(&b));
}

#[test]
fn a_rotation_over_no_reader_is_over() {
    let rotation = ReaderRotation::new(0);
    assert_eq!(rotation.current(), None);
}

#[test]
fn a_rotation_asks_the_readers_in_turn() {
    let mut rotation = ReaderRotation::new(3);
    assert_eq!(rotation.current(), Some(0));
    rotation.advance(false);
    assert_eq!(rotation.current(), Some(1));
    rotation.advance(false);
    assert_eq!(rotation.current(), Some(2));
    rotation.advance(false);
    assert_eq!(rotation.current(), Some(0));
}

#[test]
fn an_exhausted_reader_leaves_when_the_pass_ends() {
    let mut rotation = ReaderRotation::new(3);
    rotation.advance(false);
    rotation.advance(true);
    assert_eq!(rotation.current(), Some(2));
    rotation.advance(false);
    assert_eq!(rotation.current(), Some(0));
    rotation.advance(false);
    assert_eq!(rotation.current(), Some(2));
    rotation.advance(true);
    assert_eq!(rotation.current(), Some(0));
    rotation.advance(true);
    assert_eq!(rotation.current(), None);
}

#[test]
fn a_rotation_interleaves_files_of_different_length() {
    let files: Vec<Vec<&str>> = vec![vec!["a1", "a2", "a3"], vec!["b1"], vec![], vec!["d1", "d2"]];
    let mut positions: Vec<usize> = vec![0; files.len()];
    let mut rotation = ReaderRotation::new(files.len());
    let mut order: Vec<&str> = Vec::new();
    while let Some(reader) = rotation.current() {
        if positions[reader] < files[reader].len() {
            order.push(files[reader][positions[reader]]);
            positions[reader] += 1;
            rotation.advance(false);
        } else {
            rotation.advance(true);
        }
    }
    assert_eq!(order, vec!["a1", "b1", "d1", "a2", "d2", "a3"]);
}

#[test]
fn blank_lines_are_not_retained() {
    assert_eq!(retain_non_blank(lines(&["a", "", " ", "b", "\t", "c "])), lines(&["a", "b", "c "]));
    assert_eq!(retain_non_blank(lines(&["", "  "])), Vec::<String>::new());
    assert_eq!(retain_non_blank(Vec::new()), Vec::<String>::new());
    assert_eq!(retain_non_blank(lines(&["x", "x"])), lines(&["x", "x"]));
}

#[test]
fn an_emitter_walks_the_buckets_in_ascending_order() {
    let mut emitter = Emitter::new(3, "out", Some(1));
    assert_eq!(emitter.current(), Some(0));
    emitter.emit(lines(&["a"]));
    assert_eq!(emitter.current(), Some(1));
    emitter.emit(Vec::new());
    assert_eq!(emitter.current(), Some(2));
    emitter.emit(lines(&["b"]));
    assert_eq!(emitter.current(), None);
}

#[test]
fn an_emitter_without_buckets_is_done() {
    let emitter = Emitter::new(0, "out", None);
    assert_eq!(emitter.current(), None);
}

#[test]
fn an_empty_bucket_yields_no_file() {
    let mut emitter = Emitter::new(2, "out", Some(1));
    assert!(emitter.emit(Vec::new()).is_none());
    assert!(emitter.emit(lines(&["", "   ", "\t"])).is_none());
}

#[test]
fn a_bucket_becomes_a_file_with_its_lines() {
    let mut emitter = Emitter::new(1, "shuffled", Some(1));
    let file = emitter.emit(lines(&["x", "", "y", "z", "x"])).expect("the bucket holds lines");
    assert_eq!(file.name, "shuffled.jsonl");
    assert_eq!(sorted(file.lines), lines(&["x", "x", "y", "z"]));
}

#[test]
fn part_numbers_follow_the_bucket_and_may_have_gaps() {
    let mut emitter = Emitter::new(4, "shuffled", None);
    let first = emitter.emit(lines(&["a"])).expect("the bucket holds a line");
    assert_eq!(first.name, "shuffled_part_0001.jsonl");
    assert!(emitter.emit(Vec::new()).is_none());
    let third = emitter.emit(lines(&["b"])).expect("the bucket holds a line");
    assert_eq!(third.name, "shuffled_part_0003.jsonl");
    let fourth = emitter.emit(lines(&["c"])).expect("the bucket holds a line");
    assert_eq!(fourth.name, "shuffled_part_0004.jsonl");
}

#[test]
fn one_of_several_buckets_still_carries_a_part_number() {
    let mut emitter = Emitter::new(2, "shuffled", None);
    assert!(emitter.emit(Vec::new()).is_none());
    let second = emitter.emit(lines(&["only"])).expect("the bucket holds a line");
    assert_eq!(second.name, "shuffled_part_0002.jsonl");
}

#[test]
fn the_same_seed_gives_the_same_files() {
    let input: Vec<String> = (0..100).map(|i| format!("line {}", i)).collect();
    let mut one = Emitter::new(2, "out", Some(7));
    let mut two = Emitter::new(2, "out", Some(7));
    for _ in 0..2 {
        let a = one.emit(input.clone()).expect("the bucket holds lines");
        let b = two.emit(input.clone()).expect("the bucket holds lines");
        assert_eq!(a.name, b.name);
        assert_eq!(a.lines, b.lines);
        assert_ne!(a.lines, input);
    }
}

#[test]
fn one_generator_serves_all_buckets() {
    let input: Vec<String> = (0..100).map(|i| format!("line {}", i)).collect();
    let mut emitter = Emitter::new(2, "out", Some(7));
    let first = emitter.emit(input.clone()).expect("the bucket holds lines");
    let second = emitter.emit(input.clone()).expect("the bucket holds lines");
    assert_ne!(first.lines, second.lines);
}
