use pre_commit::text::{is_white_space, list_entries};

#[test]
fn white_space_is_what_unicode_says() {
    for code in 0..=0x10FFFFu32 {
        if let Some(c) = char::from_u32(code) {
            assert_eq!(is_white_space(c), c.is_whitespace(), "{:?}", c);
        }
    }
}

#[test]
fn entries_are_trimmed_and_not_empty() {
    assert_eq!(list_entries("a, b ,,\t c d \u{3000}, "), vec!["a", "b", "c d"]);
    assert!(list_entries("").is_empty());
    assert!(list_entries(" , ,").is_empty());
    assert_eq!(list_entries("é,ß"), vec!["é", "ß"]);
}

#[test]
fn entries_are_those_of_split_and_trim() {
    for list in ["x", ",x", "x,", "x,y", " x y , z", ",,", "\n,\u{a0}q\u{2003},r", "a,,b, ,c"] {
        let expected: Vec<String> = list
            .split(',')
            .map(|s| s.trim().to_string())
            .filter(|s| !s.is_empty())
            .collect();
        assert_eq!(list_entries(list), expected);
    }
}

#[test]
fn the_entries_of_two_lists_follow_each_other() {
    for (first, second) in [("a, b", "c"), ("", "x"), (" ,a,", ",b "), ("", "")] {
        let mut both = list_entries(first);
        both.append(&mut list_entries(second));
        assert_eq!(list_entries(&format!("{},{}", first, second)), both);
    }
}

#[test]
fn clean_texts_read_back() {
    let texts = vec!["a".to_string(), "b c".to_string(), "é".to_string()];
    assert_eq!(list_entries(&texts.join(",")), texts);
    assert!(list_entries(&[""; 0].join(",")).is_empty());
}

#[test]
fn an_entry_is_what_a_piece_trims_to() {
    let entries = list_entries("x, y z ,");
    for text in ["x", "y z"] {
        assert!(entries.iter().any(|entry| entry == text));
    }
    for text in ["", "y", " y z "] {
        assert!(!entries.iter().any(|entry| entry == text));
    }
}
