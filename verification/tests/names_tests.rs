use shuffly::names::{output_file_name, temp_file_name};

#[test]
fn temp_names_are_hidden_and_padded() {
    assert_eq!(temp_file_name("shuffled", 0), ".shuffled_temp_0000.jsonl");
    assert_eq!(temp_file_name("shuffled", 7), ".shuffled_temp_0007.jsonl");
    assert_eq!(temp_file_name("shuffled", 42), ".shuffled_temp_0042.jsonl");
    assert_eq!(temp_file_name("shuffled", 999), ".shuffled_temp_0999.jsonl");
    assert_eq!(temp_file_name("shuffled", 1000), ".shuffled_temp_1000.jsonl");
    assert_eq!(temp_file_name("out", 9999), ".out_temp_9999.jsonl");
}

#[test]
fn temp_names_grow_past_four_digits() {
    assert_eq!(temp_file_name("out", 10000), ".out_temp_10000.jsonl");
    assert_eq!(temp_file_name("out", 1234567), ".out_temp_1234567.jsonl");
    assert_eq!(temp_file_name("", 3), "._temp_0003.jsonl");
}

#[test]
fn temp_names_agree_with_format() {
    let samples: [usize; 8] = [0, 1, 9, 10, 99, 100, 12345, usize::MAX];
    for i in samples {
        assert_eq!(temp_file_name("n", i), format!(".{}_temp_{:04}.jsonl", "n", i));
    }
}

#[test]
fn single_bucket_keeps_the_base_name() {
    assert_eq!(output_file_name("shuffled", 1, 0), "shuffled.jsonl");
    assert_eq!(output_file_name("data", 1, 0), "data.jsonl");
}

#[test]
fn several_buckets_are_numbered_from_one() {
    assert_eq!(output_file_name("shuffled", 3, 0), "shuffled_part_0001.jsonl");
    assert_eq!(output_file_name("shuffled", 3, 1), "shuffled_part_0002.jsonl");
    assert_eq!(output_file_name("shuffled", 3, 2), "shuffled_part_0003.jsonl");
    assert_eq!(output_file_name("shuffled", 2, 0), "shuffled_part_0001.jsonl");
    assert_eq!(output_file_name("x", 20000, 9999), "x_part_10000.jsonl");
}

#[test]
fn output_names_agree_with_format() {
    let samples: [usize; 6] = [0, 8, 9, 98, 998, 99999];
    for i in samples {
        assert_eq!(
            output_file_name("n", usize::MAX, i),
            format!("{}_part_{:04}.jsonl", "n", i + 1)
        );
    }
}

#[test]
fn last_bucket_of_the_largest_run() {
    assert_eq!(
        output_file_name("n", usize::MAX, usize::MAX - 1),
        format!("n_part_{:04}.jsonl", usize::MAX)
    );
}
