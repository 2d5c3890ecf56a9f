use the_algorithms_rust::word_break::word_break;

#[test]
fn typical_case_1() {
    let dict: Vec<&str> = vec!["apple", "pen"];
    assert_eq!(word_break("applepenapple", &dict), true);
}

#[test]
fn typical_case_2() {
    let dict: Vec<&str> = vec!["cats", "dog", "sand", "and", "cat"];
    assert_eq!(word_break("catsandog", &dict), false);
}

#[test]
fn typical_case_3() {
    let dict: Vec<&str> = vec!["car", "ca", "rs"];
    assert_eq!(word_break("cars", &dict), true);
}

#[test]
fn edge_case_empty_string() {
    let dict: Vec<&str> = vec!["apple", "pen"];
    assert_eq!(word_break("", &dict), true);
}

#[test]
fn edge_case_empty_dict() {
    let dict: Vec<&str> = vec![];
    assert_eq!(word_break("apple", &dict), false);
}

#[test]
fn edge_case_single_char_in_dict() {
    let dict: Vec<&str> = vec!["a"];
    assert_eq!(word_break("a", &dict), true);
}

#[test]
fn edge_case_single_char_not_in_dict() {
    let dict: Vec<&str> = vec!["a"];
    assert_eq!(word_break("b", &dict), false);
}

#[test]
fn edge_case_all_words_larger_than_input() {
    let dict: Vec<&str> = vec!["apple", "banana"];
    assert_eq!(word_break("a", &dict), false);
}

#[test]
fn edge_case_no_solution_large_string() {
    let dict: Vec<&str> = vec!["a", "bc", "def", "ghij", "klmno", "pqrst"];
    assert_eq!(word_break("abcdefghijklmnoqrstuv", &dict), false);
}

#[test]
fn successful_segmentation_large_string() {
    let dict: Vec<&str> = vec!["a", "bc", "def", "ghij", "klmno", "pqrst"];
    assert_eq!(word_break("abcdefghijklmnopqrst", &dict), true);
}

#[test]
fn long_string_repeated_pattern() {
    let dict: Vec<&str> = vec!["a", "b", "ab"];
    assert_eq!(word_break(&"ab".repeat(100), &dict), true);
}

#[test]
fn long_string_no_solution() {
    let dict: Vec<&str> = vec!["b"];
    assert_eq!(word_break(&"a".repeat(100), &dict), false);
}

#[test]
fn mixed_size_dict_1() {
    let dict: Vec<&str> = vec!["apple", "pen", "applepen", "pine", "pineapple"];
    assert_eq!(word_break("pineapplepenapple", &dict), true);
}

#[test]
fn mixed_size_dict_2() {
    let dict: Vec<&str> = vec!["cats", "dog", "sand", "and", "cat"];
    assert_eq!(word_break("catsandog", &dict), false);
}

#[test]
fn mixed_size_dict_3() {
    let dict: Vec<&str> = vec!["a", "abc", "b", "cd"];
    assert_eq!(word_break("abcd", &dict), true);
}

#[test]
fn performance_stress_test_large_valid() {
    let dict: Vec<&str> = vec!["a", "ab", "abc"];
    assert_eq!(word_break(&"abc".repeat(1000), &dict), true);
}

#[test]
fn performance_stress_test_large_invalid() {
    let dict: Vec<&str> = vec!["a", "ab", "abc"];
    assert_eq!(word_break(&"x".repeat(1000), &dict), false);
}

/// Tries every first word in turn, with no table of earlier answers.
fn naive(s: &[char], dict: &[Vec<char>]) -> bool {
    if s.is_empty() {
        return true;
    }
    (1..=s.len()).any(|k| dict.iter().any(|w| w.as_slice() == &s[..k]) && naive(&s[k..], dict))
}

#[test]
fn memoised_search_agrees_with_naive_search() {
    let dicts: Vec<Vec<&str>> = vec![
        vec![],
        vec!["a"],
        vec!["a", "b", "ab"],
        vec!["ab", "ba", "aab"],
        vec!["", "b", "aba"],
    ];
    let alphabet = ['a', 'b'];
    for len in 0..7u32 {
        for code in 0..(1u32 << len) {
            let s: String = (0..len).map(|i| alphabet[((code >> i) & 1) as usize]).collect();
            let chars: Vec<char> = s.chars().collect();
            for d in &dicts {
                let words: Vec<Vec<char>> = d.iter().map(|w| w.chars().collect()).collect();
                assert_eq!(word_break(&s, d), naive(&chars, &words), "{:?} {:?}", s, d);
            }
        }
    }
}

#[test]
fn empty_string_with_empty_dictionary() {
    assert!(word_break("", &[]));
}

#[test]
fn empty_dictionary_rejects_non_empty_strings() {
    for s in ["x", "ab", " ", "\u{e9}t\u{e9}"] {
        assert!(!word_break(s, &[]));
    }
}

#[test]
fn each_word_splits_as_itself() {
    let dict = ["cat", "sand", "dog", "\u{e9}t\u{e9}", "a b"];
    for w in dict {
        assert!(word_break(w, &dict));
    }
}

#[test]
fn larger_dictionary_keeps_a_split() {
    assert!(word_break("catsanddog", &["cats", "and", "dog"]));
    assert!(word_break("catsanddog", &["cats", "and", "dog", "cat", "sand", "x"]));
}

#[test]
fn non_ascii_characters_count_as_single_symbols() {
    assert!(word_break("\u{e9}t\u{e9}\u{e9}t\u{e9}", &["\u{e9}t\u{e9}"]));
    assert!(!word_break("\u{e9}t", &["e", "t"]));
}

#[test]
fn case_and_white_space_are_kept() {
    assert!(!word_break("Apple", &["apple"]));
    assert!(!word_break("apple pen", &["apple", "pen"]));
    assert!(word_break("apple pen", &["apple", " ", "pen"]));
}

#[test]
fn empty_word_in_dictionary_changes_nothing() {
    assert!(!word_break("ab", &["", "a"]));
    assert!(word_break("", &[""]));
}
