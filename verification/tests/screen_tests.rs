use wordle::feedback::{check_word_not_tty, Color};
use wordle::screen::{fits_feedback, possible_words};

fn cs(x: &str) -> Vec<char> {
    x.chars().collect()
}

fn strs(xs: &[&str]) -> Vec<String> {
    xs.iter().map(|x| x.to_string()).collect()
}

use Color::{Red as R, Yellow as Y};

#[test]
fn only_consistent_words_remain() {
    let (cols, _) = check_word_not_tty(&"apple".to_string(), &"paper".to_string());
    let history = vec![(cs("paper"), cols)];
    let candidates = strs(&["apple", "maple", "ample", "apply", "upper"]);
    assert_eq!(possible_words(&candidates, &history), strs(&["apple"]));
}

#[test]
fn red_letters_must_be_absent_after_yellows() {
    let cols = vec![Y, R, R, R, R];
    assert!(fits_feedback(&cs("abcde"), &cols, &cs("xaxxx")));
    assert!(!fits_feedback(&cs("abcde"), &cols, &cs("xabxx")));
    assert!(!fits_feedback(&cs("abcde"), &cols, &cs("axxxx")));
}

#[test]
fn yellow_copies_are_taken_in_order() {
    let cols = vec![Y, Y, R, R, R];
    assert!(fits_feedback(&cs("aaxyz"), &cols, &cs("bacda")));
    assert!(!fits_feedback(&cs("aaxyz"), &cols, &cs("bacdb")));
}

#[test]
fn no_history_keeps_every_word() {
    let candidates = strs(&["apple", "maple"]);
    assert_eq!(possible_words(&candidates, &Vec::new()), candidates);
}

#[test]
fn the_answer_is_never_screened_out() {
    let answer = "abbey".to_string();
    let mut history = Vec::new();
    for g in ["babes", "bbbbb", "eerie", "yearn"] {
        let (cols, _) = check_word_not_tty(&answer, &g.to_string());
        history.push((cs(g), cols));
    }
    let candidates = strs(&["abbey", "babes", "ebbed"]);
    assert!(possible_words(&candidates, &history).contains(&answer));
}
