use wordle::text::{is_white_space_char, trim};
use wordle::words::{
    check_subset, day_in_range, is_legal_word, load_word_lists, normalize_line, normalize_list,
    sort_unique, sort_words, word_less, SetupError,
};

fn strs(xs: &[&str]) -> Vec<String> {
    xs.iter().map(|x| x.to_string()).collect()
}

#[test]
fn legal_words_are_five_lowercase_letters() {
    assert!(is_legal_word("hello"));
    assert!(!is_legal_word("Hello"));
    assert!(!is_legal_word("hell"));
    assert!(!is_legal_word("helloo"));
    assert!(!is_legal_word("héllo"));
    assert!(!is_legal_word("hel1o"));
}

#[test]
fn trimming_removes_unicode_white_space() {
    assert_eq!(trim("\t abc \u{3000}\n"), "abc");
    assert_eq!(trim(" a b "), "a b");
    assert_eq!(trim(" \u{2003} "), "");
    assert_eq!(trim(""), "");
    assert!(is_white_space_char('\u{85}'));
    assert!(!is_white_space_char('\u{200B}'));
}

#[test]
fn lines_are_trimmed_then_lowercased() {
    assert_eq!(normalize_line(&"  HeLLo \r\n".to_string()), "hello");
    assert_eq!(normalize_line(&"ÉCOLE".to_string()), "école");
    assert_eq!(normalize_list(&strs(&[" Crane", "SLATE "])), Some(strs(&["crane", "slate"])));
    assert_eq!(normalize_list(&strs(&["crane", "crane!"])), None);
}

#[test]
fn word_order_is_lexicographic() {
    assert!(word_less(&"apple".to_string(), &"apply".to_string()));
    assert!(word_less(&"app".to_string(), &"apple".to_string()));
    assert!(!word_less(&"b".to_string(), &"a".to_string()));
    assert!(!word_less(&"same".to_string(), &"same".to_string()));
}

#[test]
fn sorting_keeps_every_word() {
    assert_eq!(
        sort_words(&strs(&["pear", "apple", "fig", "apple"])),
        strs(&["apple", "apple", "fig", "pear"])
    );
    assert_eq!(sort_unique(&strs(&["pear", "apple", "fig"])), Some(strs(&["apple", "fig", "pear"])));
    assert_eq!(sort_unique(&strs(&["pear", "apple", "pear"])), None);
}

#[test]
fn given_lists_are_sorted_builtin_lists_kept() {
    let builtin_final = strs(&["zebra", "crane"]);
    let builtin_acc = strs(&["zebra", "crane", "slate"]);
    let r = load_word_lists(None, &builtin_final, None, &builtin_acc).unwrap();
    assert_eq!(r.0, builtin_final);
    assert_eq!(r.1, builtin_acc);
    let fin = strs(&["SLATE", " crane"]);
    let r = load_word_lists(Some(&fin), &builtin_final, None, &builtin_acc).unwrap();
    assert_eq!(r.0, strs(&["crane", "slate"]));
    assert_eq!(r.1, builtin_acc);
}

#[test]
fn list_errors_come_in_order() {
    let b = strs(&["crane"]);
    let bad = strs(&["crane", "toolong"]);
    let dup = strs(&["crane", "CRANE"]);
    let good = strs(&["crane"]);
    assert_eq!(load_word_lists(Some(&bad), &b, Some(&bad), &b), Err(SetupError::FinalSetIllegal));
    assert_eq!(load_word_lists(Some(&good), &b, Some(&bad), &b), Err(SetupError::AcceptableSetIllegal));
    assert_eq!(load_word_lists(Some(&dup), &b, Some(&bad), &b), Err(SetupError::AcceptableSetIllegal));
    assert_eq!(load_word_lists(Some(&dup), &b, Some(&dup), &b), Err(SetupError::FinalSetIllegal));
    assert_eq!(load_word_lists(Some(&good), &b, Some(&dup), &b), Err(SetupError::AcceptableSetIllegal));
    assert_eq!(SetupError::FinalSetIllegal.message(), "The final set is illegal!");
    assert_eq!(SetupError::AcceptableSetIllegal.message(), "The acceptable set is illegal!");
}

#[test]
fn answers_must_be_acceptable() {
    let acc = strs(&["apple", "crane", "slate", "zebra"]);
    assert_eq!(check_subset(&strs(&["crane", "zebra"]), &acc), Ok(()));
    assert_eq!(check_subset(&strs(&["crane", "flute"]), &acc), Err(SetupError::NotSubset));
    assert_eq!(check_subset(&Vec::new(), &Vec::new()), Err(SetupError::NotSubset));
    assert_eq!(
        SetupError::NotSubset.message(),
        "The final set is not a subset of the acceptable set"
    );
}

#[test]
fn day_must_name_a_round() {
    assert!(day_in_range(1, 3));
    assert!(day_in_range(3, 3));
    assert!(!day_in_range(0, 3));
    assert!(!day_in_range(4, 3));
    assert!(!day_in_range(-2, 3));
}
