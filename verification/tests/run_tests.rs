use shuffly::batch::{into_batches, MAX_OPEN_INPUT_FILES};
use shuffly::distribute::Distributor;
use shuffly::rotation::ReaderRotation;
use shuffly::emit::Emitter;
use shuffly::flush::BucketWrite;
use shuffly::memory::shuffle_lines;
use shuffly::order::sort_paths;
use shuffly::plan::{bucket_count, estimate_total_input_size};

fn write_out(store: &mut Vec<Vec<String>>, plan: Vec<Vec<BucketWrite>>) {
    for batch in plan {
        for write in batch {
            store[write.bucket].extend(write.lines);
        }
    }
}

fn run(
    files: Vec<Vec<String>>,
    buckets: usize,
    name: &str,
    seed: Option<u64>,
    threshold: usize,
) -> Vec<(String, Vec<String>)> {
    let mut store: Vec<Vec<String>> = vec![Vec::new(); buckets];
    let mut distributor = Distributor::with_threshold(buckets, seed, threshold);
    for batch in into_batches(files, MAX_OPEN_INPUT_FILES) {
        let mut positions: Vec<usize> = vec![0; batch.len()];
        let mut rotation = ReaderRotation::new(batch.len());
        while let Some(reader) = rotation.current() {
            if positions[reader] < batch[reader].len() {
                let line = batch[reader][positions[reader]].clone();
                positions[reader] += 1;
                if let Some(plan) = distributor.offer(line) {
                    write_out(&mut store, plan);
                }
                rotation.advance(false);
            } else {
                rotation.advance(true);
            }
        }
    }
    if let Some(plan) = distributor.finish() {
        write_out(&mut store, plan);
    }
    let mut emitter = Emitter::new(buckets, name, seed);
    let mut outputs: Vec<(String, Vec<String>)> = Vec::new();
    while let Some(bucket) = emitter.current() {
        let lines = std::mem::take(&mut store[bucket]);
        if let Some(file) = emitter.emit(lines) {
            outputs.push((file.name, file.lines));
        }
    }
    outputs
}

fn file(lines: &[&str]) -> Vec<String> {
    lines.iter().map(|s| s.to_string()).collect()
}

fn all_lines(outputs: &[(String, Vec<String>)]) -> Vec<String> {
    let mut all: Vec<String> = Vec::new();
    for (_, lines) in outputs {
        all.extend(lines.iter().cloned());
    }
    all.sort();
    all
}

fn sorted(mut items: Vec<String>) -> Vec<String> {
    items.sort();
    items
}

#[test]
fn two_small_files_make_one_repeatable_output() {
    let paths = sort_paths(vec!["b.jsonl".to_string(), "a.jsonl".to_string()]);
    assert_eq!(paths, vec!["a.jsonl".to_string(), "b.jsonl".to_string()]);
    let a = file(&["x", "y"]);
    let b = file(&["z"]);
    let total = estimate_total_input_size(&vec![4, 2]).expect("the sizes fit");
    let buckets = bucket_count(total, 4096 * 1024 * 1024);
    assert_eq!(buckets, 1);
    let first = run(vec![a.clone(), b.clone()], buckets, "shuffled", Some(7), 1 << 30);
    assert_eq!(first.len(), 1);
    assert_eq!(first[0].0, "shuffled.jsonl");
    assert_eq!(sorted(first[0].1.clone()), file(&["x", "y", "z"]));
    for _ in 0..5 {
        let again = run(vec![a.clone(), b.clone()], buckets, "shuffled", Some(7), 1 << 30);
        assert_eq!(again, first);
    }
}

#[test]
fn lines_are_conserved() {
    let files = vec![
        file(&["a", "", "b", "a", "   ", "c"]),
        file(&[]),
        file(&["d", "a", "\t", "e", "f", "g", "h"]),
        file(&["", ""]),
    ];
    let expected = sorted(file(&["a", "a", "a", "b", "c", "d", "e", "f", "g", "h"]));
    for buckets in 1..6 {
        for seed in [None, Some(0), Some(99)] {
            let outputs = run(files.clone(), buckets, "out", seed, 1 << 30);
            assert_eq!(all_lines(&outputs), expected);
        }
    }
}

#[test]
fn lines_are_conserved_across_flushes() {
    let files: Vec<Vec<String>> = (0..40)
        .map(|f| (0..25).map(|i| format!("file {} line {}", f, i)).collect())
        .collect();
    let mut expected: Vec<String> = files.iter().flatten().cloned().collect();
    expected.sort();
    for threshold in [0, 1, 17, 500, 1 << 30] {
        let outputs = run(files.clone(), 9, "out", Some(4), threshold);
        assert_eq!(all_lines(&outputs), expected);
    }
}

#[test]
fn flush_boundaries_do_not_change_the_buckets() {
    let files: Vec<Vec<String>> = (0..3)
        .map(|f| (0..50).map(|i| format!("file {} line {}", f, i)).collect())
        .collect();
    let whole = run(files.clone(), 4, "out", Some(8), 1 << 30);
    let pieces = run(files.clone(), 4, "out", Some(8), 64);
    assert_eq!(whole, pieces);
}

#[test]
fn a_seeded_run_is_repeatable() {
    let files: Vec<Vec<String>> = (0..20)
        .map(|f| (0..30).map(|i| format!("file {} line {}", f, i)).collect())
        .collect();
    let first = run(files.clone(), 6, "out", Some(123), 1 << 30);
    let second = run(files.clone(), 6, "out", Some(123), 1 << 30);
    assert_eq!(first, second);
    let other = run(files, 6, "out", Some(124), 1 << 30);
    assert_ne!(first, other);
}

#[test]
fn an_unseeded_run_is_not_repeatable() {
    let files: Vec<Vec<String>> = vec![(0..200).map(|i| format!("line {}", i)).collect()];
    let first = run(files.clone(), 1, "out", None, 1 << 30);
    let second = run(files.clone(), 1, "out", None, 1 << 30);
    assert_eq!(all_lines(&first), all_lines(&second));
    assert_ne!(first, second);
}

#[test]
fn more_buckets_than_lines_leave_buckets_empty() {
    let files = vec![file(&["a", "b"]), file(&["c"])];
    for seed in 0..20 {
        let outputs = run(files.clone(), 8, "out", Some(seed), 1 << 30);
        assert!(outputs.len() <= 3);
        assert!(!outputs.is_empty());
        assert_eq!(all_lines(&outputs), file(&["a", "b", "c"]));
        for (name, lines) in &outputs {
            assert!(!lines.is_empty());
            assert!(name.starts_with("out_part_"));
        }
    }
}

#[test]
fn there_are_never_more_outputs_than_buckets() {
    let files: Vec<Vec<String>> = vec![(0..300).map(|i| format!("line {}", i)).collect()];
    for buckets in 1..12 {
        let outputs = run(files.clone(), buckets, "out", Some(1), 1 << 30);
        assert!(outputs.len() <= buckets);
    }
}

#[test]
fn an_empty_input_gives_no_output() {
    assert!(run(Vec::new(), 1, "out", Some(1), 1 << 30).is_empty());
    assert!(run(vec![file(&[])], 1, "out", Some(1), 1 << 30).is_empty());
    assert!(run(vec![file(&["", "  "])], 3, "out", None, 1 << 30).is_empty());
}

#[test]
fn a_single_bucket_gives_the_bare_name() {
    let outputs = run(vec![file(&["only line"])], 1, "data", None, 1 << 30);
    assert_eq!(outputs.len(), 1);
    assert_eq!(outputs[0].0, "data.jsonl");
    assert_eq!(outputs[0].1, file(&["only line"]));
}

#[test]
fn outputs_come_in_ascending_order_of_the_buckets() {
    let files: Vec<Vec<String>> = vec![(0..500).map(|i| format!("line {}", i)).collect()];
    let outputs = run(files, 5, "out", Some(77), 1 << 30);
    let names: Vec<&str> = outputs.iter().map(|(name, _)| name.as_str()).collect();
    assert_eq!(
        names,
        vec![
            "out_part_0001.jsonl",
            "out_part_0002.jsonl",
            "out_part_0003.jsonl",
            "out_part_0004.jsonl",
            "out_part_0005.jsonl"
        ]
    );
}

#[test]
fn many_input_files_are_read_in_batches() {
    let files: Vec<Vec<String>> = (0..50)
        .map(|f| (0..(f % 4)).map(|i| format!("file {} line {}", f, i)).collect())
        .collect();
    let mut expected: Vec<String> = files.iter().flatten().cloned().collect();
    expected.sort();
    let outputs = run(files, 3, "out", Some(5), 1 << 30);
    assert_eq!(all_lines(&outputs), expected);
}

#[test]
fn the_run_in_memory_decides_as_the_run_step_by_step() {
    let files: Vec<Vec<String>> = (0..20)
        .map(|f| (0..(10 + f % 5)).map(|i| format!("file {} line {}", f, i)).collect())
        .collect();
    for seed in [0, 1, 99] {
        let by_steps = run(files.clone(), 7, "out", Some(seed), 100);
        let in_memory: Vec<(String, Vec<String>)> = shuffle_lines(files.clone(), "out", 7, Some(seed))
            .into_iter()
            .map(|o| (o.name, o.lines))
            .collect();
        assert_eq!(by_steps, in_memory);
    }
}
