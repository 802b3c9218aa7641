use shuffly::order::{sort_paths, text_le};
use shuffly::text::{ends_with, is_blank, is_whitespace, same_text, split_on, trim};

fn owned(items: &[&str]) -> Vec<String> {
    items.iter().map(|s| s.to_string()).collect()
}

#[test]
fn whitespace_agrees_with_std_on_every_char() {
    let mut code: u32 = 0;
    while code <= 0x10FFFF {
        if let Some(c) = char::from_u32(code) {
            assert_eq!(is_whitespace(c), c.is_whitespace(), "U+{:04X}", code);
        }
        code += 1;
    }
}

#[test]
fn whitespace_known_members() {
    assert!(is_whitespace(' '));
    assert!(is_whitespace('\t'));
    assert!(is_whitespace('\n'));
    assert!(is_whitespace('\r'));
    assert!(is_whitespace('\u{00A0}'));
    assert!(is_whitespace('\u{3000}'));
    assert!(!is_whitespace('a'));
    assert!(!is_whitespace('0'));
    assert!(!is_whitespace('\u{200B}'));
}

#[test]
fn blank_lines_are_recognised() {
    assert!(is_blank(""));
    assert!(is_blank(" "));
    assert!(is_blank(" \t\r "));
    assert!(is_blank("\u{2003}\u{00A0}"));
    assert!(!is_blank("x"));
    assert!(!is_blank("  x  "));
    assert!(!is_blank("{}"));
    assert!(!is_blank(" \u{200B} "));
}

#[test]
fn blank_agrees_with_trim_is_empty() {
    let samples = ["", " ", "a", " a", "a ", "\t\t", "\u{1680}", "é", " é ", "{\"k\": 1}"];
    for s in samples {
        assert_eq!(is_blank(s), s.trim().is_empty(), "{:?}", s);
    }
}

#[test]
fn trim_removes_white_space_at_both_ends() {
    assert_eq!(trim("  a b  "), "a b");
    assert_eq!(trim("a"), "a");
    assert_eq!(trim(""), "");
    assert_eq!(trim("   "), "");
    assert_eq!(trim("\t x"), "x");
    assert_eq!(trim("x \n"), "x");
    assert_eq!(trim(" é \u{3000}"), "é");
}

#[test]
fn trim_agrees_with_std() {
    let samples = ["", " ", "  ab  c ", "\u{00A0}x\u{00A0}", "no space", " \t\r\n", "a\u{200B} "];
    for s in samples {
        assert_eq!(trim(s), s.trim(), "{:?}", s);
    }
}

#[test]
fn split_cuts_at_every_separator() {
    assert_eq!(split_on("a:b:c", ':'), owned(&["a", "b", "c"]));
    assert_eq!(split_on("abc", ':'), owned(&["abc"]));
    assert_eq!(split_on("", ':'), owned(&[""]));
    assert_eq!(split_on(":", ':'), owned(&["", ""]));
    assert_eq!(split_on("a::b", ':'), owned(&["a", "", "b"]));
    assert_eq!(split_on(":a:", ':'), owned(&["", "a", ""]));
    assert_eq!(split_on("é:ü", ':'), owned(&["é", "ü"]));
}

#[test]
fn split_agrees_with_std() {
    let samples = ["", ":", "::", "a", "a:b", " a : b ", "x:y:z:", "/p/q.jsonl:/r/s.jsonl"];
    for s in samples {
        let expected: Vec<String> = s.split(':').map(|p| p.to_string()).collect();
        assert_eq!(split_on(s, ':'), expected, "{:?}", s);
    }
}

#[test]
fn suffix_is_recognised() {
    assert!(ends_with("a.jsonl", ".jsonl"));
    assert!(ends_with("a.jsonl.gz", ".gz"));
    assert!(ends_with("abc", ""));
    assert!(ends_with("", ""));
    assert!(ends_with(".gz", ".gz"));
    assert!(!ends_with("a.jsonl", ".gz"));
    assert!(!ends_with("gz", ".gz"));
    assert!(!ends_with("a.JSONL", ".jsonl"));
    assert!(!ends_with("a.jsonlines", ".jsonl"));
    assert!(ends_with("né", "é"));
}

#[test]
fn same_text_is_equality() {
    assert!(same_text("", ""));
    assert!(same_text("abc", "abc"));
    assert!(!same_text("abc", "abd"));
    assert!(!same_text("abc", "ab"));
    assert!(!same_text("ab", "abc"));
}

#[test]
fn order_is_lexicographic() {
    assert!(text_le("", ""));
    assert!(text_le("", "a"));
    assert!(!text_le("a", ""));
    assert!(text_le("a", "a"));
    assert!(text_le("a", "b"));
    assert!(!text_le("b", "a"));
    assert!(text_le("a", "ab"));
    assert!(!text_le("ab", "a"));
    assert!(text_le("a-b", "a/b"));
    assert!(text_le("Z", "a"));
    assert!(text_le("z", "é"));
}

#[test]
fn order_agrees_with_std() {
    let samples = ["", "a", "b", "ab", "a.jsonl", "a.jsonl.gz", "é", "z", "Z", "10", "9", "\u{10000}", "\u{FFFF}"];
    for a in samples {
        for b in samples {
            assert_eq!(text_le(a, b), a <= b, "{:?} {:?}", a, b);
        }
    }
}

#[test]
fn sort_puts_paths_in_ascending_order() {
    let sorted = sort_paths(owned(&["c.jsonl", "a.jsonl", "b.jsonl"]));
    assert_eq!(sorted, owned(&["a.jsonl", "b.jsonl", "c.jsonl"]));
}

#[test]
fn sort_keeps_duplicates_and_handles_small_lists() {
    assert_eq!(sort_paths(Vec::new()), Vec::<String>::new());
    assert_eq!(sort_paths(owned(&["x"])), owned(&["x"]));
    assert_eq!(sort_paths(owned(&["b", "a", "b", "a"])), owned(&["a", "a", "b", "b"]));
}

#[test]
fn sort_agrees_with_std() {
    let input = owned(&["q", "", "zz", "a/b", "a-b", "a", "é", "b.gz", "b", "10", "9", "Zeta"]);
    let mut expected = input.clone();
    expected.sort();
    assert_eq!(sort_paths(input), expected);
}

#[test]
fn sort_result_does_not_depend_on_input_order() {
    let one = sort_paths(owned(&["b", "c", "a", "d"]));
    let two = sort_paths(owned(&["d", "a", "c", "b"]));
    assert_eq!(one, two);
}
