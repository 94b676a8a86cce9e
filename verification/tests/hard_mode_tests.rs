use wordle::feedback::{check_word_not_tty, Color};
use wordle::hard_mode::hard_mode_check;

fn cs(x: &str) -> Vec<char> {
    x.chars().collect()
}

use Color::{Green as G, Red as R, Yellow as Y};

#[test]
fn greens_must_stay_and_yellows_must_be_reused() {
    let cols = vec![G, Y, R, R, R];
    assert!(hard_mode_check(&cs("crane"), &cols, &cs("curly")));
    assert!(!hard_mode_check(&cs("crane"), &cols, &cs("cloud")));
    assert!(!hard_mode_check(&cs("crane"), &cols, &cs("brick")));
}

#[test]
fn each_yellow_copy_needs_its_own_letter() {
    let cols = vec![Y, Y, R, R, R];
    assert!(hard_mode_check(&cs("eerie"), &cols, &cs("hedge")));
    assert!(!hard_mode_check(&cs("eerie"), &cols, &cs("hello")));
}

#[test]
fn a_green_position_does_not_serve_a_yellow() {
    // The green `e` at the end is kept, but it cannot also stand for the
    // yellow `e` at the start.
    let cols = vec![Y, R, R, R, G];
    assert!(!hard_mode_check(&cs("easte"), &cols, &cs("horse")));
    assert!(hard_mode_check(&cs("easte"), &cols, &cs("hedge")));
}

#[test]
fn the_answer_always_passes_hard_mode() {
    for g in ["paper", "lapel", "pools", "eerie"] {
        let (cols, _) = check_word_not_tty(&"apple".to_string(), &g.to_string());
        assert!(hard_mode_check(&cs(g), &cols, &cs("apple")));
    }
}
