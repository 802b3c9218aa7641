use shuffly::random::Generator;

fn numbered(count: usize) -> Vec<String> {
    (0..count).map(|i| format!("line {}", i)).collect()
}

#[test]
fn the_first_phase_uses_the_seed_itself() {
    assert_eq!(Generator::for_distribution(Some(7)).seed(), Some(7));
    assert_eq!(Generator::for_distribution(Some(0)).seed(), Some(0));
    assert_eq!(Generator::for_distribution(None).seed(), None);
}

#[test]
fn the_second_phase_uses_the_next_seed() {
    assert_eq!(Generator::for_emission(Some(7)).seed(), Some(8));
    assert_eq!(Generator::for_emission(Some(0)).seed(), Some(1));
    assert_eq!(Generator::for_emission(None).seed(), None);
}

#[test]
fn the_next_seed_wraps() {
    assert_eq!(Generator::for_emission(Some(u64::MAX)).seed(), Some(0));
}

#[test]
fn draws_lie_below_the_bound() {
    let mut generator = Generator::for_distribution(Some(1));
    let bounds: [usize; 6] = [1, 2, 3, 10, 1000, usize::MAX];
    for bound in bounds {
        for _ in 0..200 {
            assert!(generator.draw(bound) < bound);
        }
    }
}

#[test]
fn draws_below_one_are_zero() {
    let mut generator = Generator::for_distribution(None);
    for _ in 0..50 {
        assert_eq!(generator.draw(1), 0);
    }
}

#[test]
fn draws_reach_every_bucket() {
    let mut generator = Generator::for_distribution(Some(3));
    let mut seen = [false; 4];
    for _ in 0..400 {
        seen[generator.draw(4)] = true;
    }
    assert_eq!(seen, [true; 4]);
}

#[test]
fn the_same_seed_gives_the_same_draws() {
    let mut one = Generator::for_distribution(Some(42));
    let mut two = Generator::for_distribution(Some(42));
    for _ in 0..500 {
        assert_eq!(one.draw(97), two.draw(97));
    }
}

#[test]
fn another_seed_gives_other_draws() {
    let mut one = Generator::for_distribution(Some(42));
    let mut two = Generator::for_distribution(Some(43));
    let a: Vec<usize> = (0..100).map(|_| one.draw(1000)).collect();
    let b: Vec<usize> = (0..100).map(|_| two.draw(1000)).collect();
    assert_ne!(a, b);
}

#[test]
fn the_two_phases_do_not_share_a_stream() {
    let mut first = Generator::for_distribution(Some(5));
    let mut second = Generator::for_emission(Some(5));
    let a: Vec<usize> = (0..100).map(|_| first.draw(1000)).collect();
    let b: Vec<usize> = (0..100).map(|_| second.draw(1000)).collect();
    assert_ne!(a, b);
}

#[test]
fn the_second_phase_of_a_seed_is_the_first_of_the_next() {
    let mut emission = Generator::for_emission(Some(5));
    let mut distribution = Generator::for_distribution(Some(6));
    for _ in 0..100 {
        assert_eq!(emission.draw(1000), distribution.draw(1000));
    }
}

#[test]
fn a_shuffle_permutes() {
    let mut generator = Generator::for_emission(Some(11));
    let before = numbered(200);
    let mut lines = before.clone();
    generator.shuffle(&mut lines);
    assert_ne!(lines, before);
    let mut sorted = lines.clone();
    sorted.sort();
    let mut expected = before.clone();
    expected.sort();
    assert_eq!(sorted, expected);
}

#[test]
fn a_shuffle_keeps_duplicates() {
    let mut generator = Generator::for_emission(Some(2));
    let mut lines: Vec<String> = vec!["a".to_string(); 5];
    lines.extend(vec!["b".to_string(); 3]);
    generator.shuffle(&mut lines);
    assert_eq!(lines.iter().filter(|l| l.as_str() == "a").count(), 5);
    assert_eq!(lines.iter().filter(|l| l.as_str() == "b").count(), 3);
    assert_eq!(lines.len(), 8);
}

#[test]
fn a_shuffle_of_little_changes_nothing() {
    let mut generator = Generator::for_emission(Some(2));
    let mut none: Vec<String> = Vec::new();
    generator.shuffle(&mut none);
    assert!(none.is_empty());
    let mut one = vec!["only".to_string()];
    generator.shuffle(&mut one);
    assert_eq!(one, vec!["only".to_string()]);
}

#[test]
fn the_same_seed_gives_the_same_permutation() {
    let mut one = Generator::for_emission(Some(9));
    let mut two = Generator::for_emission(Some(9));
    let mut a = numbered(100);
    let mut b = numbered(100);
    one.shuffle(&mut a);
    two.shuffle(&mut b);
    assert_eq!(a, b);
}

#[test]
fn without_a_seed_two_permutations_differ() {
    let mut one = Generator::for_emission(None);
    let mut two = Generator::for_emission(None);
    let mut a = numbered(100);
    let mut b = numbered(100);
    one.shuffle(&mut a);
    two.shuffle(&mut b);
    assert_ne!(a, b);
}
