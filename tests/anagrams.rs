use string_encode_and_decode::{gen_freq_map, group_anagrams, InputError};

// Canonicalize output to compare independently of ordering
fn canonicalize(mut groups: Vec<Vec<String>>) -> Vec<Vec<String>> {
    for g in &mut groups {
        g.sort();
    }

    groups.sort_by_key(|g| g.first().map(|s| gen_freq_map(s).unwrap()));
    groups
}

#[test]
fn example1() {
    let input = vec![
        "act".to_string(),
        "pots".to_string(),
        "tops".to_string(),
        "cat".to_string(),
        "stop".to_string(),
        "hat".to_string(),
    ];
    let output = canonicalize(group_anagrams(input).unwrap());

    let expected: Vec<Vec<String>> = canonicalize(vec![
        vec!["hat".to_string()],
        vec!["act".to_string(), "cat".to_string()],
        vec!["pots".to_string(), "stop".to_string(), "tops".to_string()],
    ]);

    assert_eq!(output, expected);
}

#[test]
fn groups_keep_input_order_and_first_appearance() {
    let input = vec!["ba".to_string(), "c".to_string(), "ab".to_string(), "".to_string()];
    let out = group_anagrams(input).unwrap();
    assert_eq!(
        out,
        vec![
            vec!["ba".to_string(), "ab".to_string()],
            vec!["c".to_string()],
            vec!["".to_string()],
        ]
    );
}

#[test]
fn letter_counts_of_word() {
    let m = gen_freq_map("abca").unwrap();
    assert_eq!(m[0], 2);
    assert_eq!(m[1], 1);
    assert_eq!(m[2], 1);
    assert_eq!(m[25], 0);
}

#[test]
fn word_too_long() {
    let long = "a".repeat(101);
    assert_eq!(gen_freq_map(&long), Err(InputError::StringTooLong()));
    assert!(gen_freq_map(&"z".repeat(100)).is_ok());
    assert_eq!(gen_freq_map(&"z".repeat(100)).unwrap()[25], 100);
}

#[test]
fn byte_outside_lower_case() {
    assert_eq!(gen_freq_map("abC"), Err(InputError::CharOutOfRange()));
    let input = vec!["ok".to_string(), "no!".to_string(), "a".repeat(200)];
    assert_eq!(group_anagrams(input), Err(InputError::CharOutOfRange()));
}

#[test]
fn input_error_messages() {
    assert_eq!(InputError::StringTooLong().message(), "input string too long (> 100 chars)");
    assert_eq!(InputError::CharOutOfRange().message(), "char out of bounds (not [a-z])");
}
