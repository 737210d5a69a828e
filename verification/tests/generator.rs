use email_dehash::generator::StringsGenerator;

fn drain(max_length: usize, dictionary: &str) -> Vec<String> {
    let mut generator = StringsGenerator::new(max_length, dictionary);
    let mut all = Vec::new();
    while let Some(candidate) = generator.advance() {
        all.push(candidate);
    }
    all
}

#[test]
fn enumerates_in_odometer_order() {
    assert_eq!(
        drain(2, "abc"),
        vec!["a", "b", "c", "aa", "ab", "ac", "ba", "bb", "bc", "ca", "cb", "cc"]
    );
}

#[test]
fn first_step_yields_first_character() {
    let mut generator = StringsGenerator::new(5, "xyz");
    assert_eq!(generator.advance(), Some("x".to_string()));
    assert_eq!(generator.advance(), Some("y".to_string()));
    assert_eq!(generator.advance(), Some("z".to_string()));
    assert_eq!(generator.advance(), Some("xx".to_string()));
}

#[test]
fn carries_across_several_positions() {
    let all = drain(3, "ab");
    assert_eq!(
        all,
        vec!["a", "b", "aa", "ab", "ba", "bb", "aaa", "aab", "aba", "abb", "baa", "bab", "bba", "bbb"]
    );
}

#[test]
fn produces_every_string_exactly_once() {
    let all = drain(4, "abc");
    assert_eq!(all.len(), 3 + 9 + 27 + 81);
    let mut sorted = all.clone();
    sorted.sort();
    sorted.dedup();
    assert_eq!(sorted.len(), all.len());
    for candidate in &all {
        assert!(!candidate.is_empty() && candidate.chars().count() <= 4);
        assert!(candidate.chars().all(|c| "abc".contains(c)));
    }
    assert!(all.contains(&"cabc".to_string()));
    assert!(all.contains(&"bb".to_string()));
}

#[test]
fn shorter_candidates_come_first() {
    let all = drain(3, "abcd");
    for pair in all.windows(2) {
        assert!(pair[0].len() <= pair[1].len());
    }
}

#[test]
fn exhaustion_is_terminal() {
    let mut generator = StringsGenerator::new(1, "ab");
    assert_eq!(generator.advance(), Some("a".to_string()));
    assert_eq!(generator.advance(), Some("b".to_string()));
    for _ in 0..10 {
        assert_eq!(generator.advance(), None);
    }
}

#[test]
fn zero_length_is_exhausted_at_once() {
    let mut generator = StringsGenerator::new(0, "abc");
    assert_eq!(generator.advance(), None);
    assert_eq!(generator.advance(), None);
    assert_eq!(drain(0, "abc").len(), 0);
}

#[test]
fn empty_dictionary_is_exhausted_at_once() {
    let mut generator = StringsGenerator::new(3, "");
    assert_eq!(generator.advance(), None);
    assert_eq!(generator.advance(), None);
}

#[test]
fn single_character_dictionary_gives_one_string_per_length() {
    assert_eq!(drain(3, "x"), vec!["x", "xx", "xxx"]);
}

#[test]
fn characters_beyond_ascii_are_whole_characters() {
    assert_eq!(drain(2, "é√"), vec!["é", "√", "éé", "é√", "√é", "√√"]);
}

#[test]
fn repeated_characters_are_separate_digits() {
    assert_eq!(drain(2, "aa"), vec!["a", "a", "aa", "aa", "aa", "aa"]);
}

#[test]
fn full_width_count_for_default_dictionary() {
    let all = drain(2, email_dehash::config::DICTIONARY);
    assert_eq!(all.len(), 65 + 65 * 65);
    assert_eq!(all[0], "a");
    assert_eq!(all[64], "+");
    assert_eq!(all[65], "aa");
    assert_eq!(all[66], "ab");
    assert_eq!(all[65 + 65], "ba");
    assert_eq!(all[all.len() - 1], "++");
}
