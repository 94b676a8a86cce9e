use wordle::feedback::{check_word_not_tty, color_letter, mark_letter, merge_marks, Color};

fn s(x: &str) -> String {
    x.to_string()
}

fn letters(cols: &[Color]) -> String {
    cols.iter().map(|c| color_letter(*c)).collect()
}

#[test]
fn exact_answer_is_all_green() {
    let (cols, marks) = check_word_not_tty(&s("crane"), &s("crane"));
    assert_eq!(letters(&cols), "GGGGG");
    assert_eq!(marks[2], 2);
    assert_eq!(marks[17], 2);
    assert_eq!(marks[25], -1);
}

#[test]
fn misplaced_letters_are_yellow() {
    let (cols, marks) = check_word_not_tty(&s("apple"), &s("paper"));
    assert_eq!(letters(&cols), "YYGYR");
    assert_eq!(marks[(b'p' - b'a') as usize], 2);
    assert_eq!(marks[0], 1);
    assert_eq!(marks[(b'e' - b'a') as usize], 1);
    assert_eq!(marks[(b'r' - b'a') as usize], 0);
    assert_eq!(marks[(b'z' - b'a') as usize], -1);
}

#[test]
fn repeated_letters_use_up_the_answer_copies() {
    let (cols, _) = check_word_not_tty(&s("abbey"), &s("babes"));
    assert_eq!(letters(&cols), "YYGGR");
    let (cols, marks) = check_word_not_tty(&s("abbey"), &s("bbbbb"));
    assert_eq!(letters(&cols), "RGGRR");
    assert_eq!(marks[1], 2);
    let (cols, _) = check_word_not_tty(&s("crane"), &s("eerie"));
    assert_eq!(letters(&cols), "RRYRG");
}

#[test]
fn shown_copies_are_the_smaller_count() {
    // The answer has three `e`, the guess two: both guess copies are shown.
    let (cols, _) = check_word_not_tty(&s("eerie"), &s("speed"));
    let shown_e = cols
        .iter()
        .zip("speed".chars())
        .filter(|(c, l)| *l == 'e' && **c != Color::Red)
        .count();
    assert_eq!(shown_e, 2);
    assert_eq!(letters(&cols), "RRYYR");
}

#[test]
fn all_green_only_for_the_answer() {
    for g in ["crane", "crate", "trace", "caner"] {
        let (cols, _) = check_word_not_tty(&s("crane"), &s(g));
        assert_eq!(letters(&cols) == "GGGGG", g == "crane");
    }
}

#[test]
fn alphabet_keeps_the_best_mark() {
    let mut alphabet = vec![-1; 26];
    let (_, m1) = check_word_not_tty(&s("apple"), &s("paper"));
    merge_marks(&mut alphabet, &m1);
    assert_eq!(alphabet[0], 1);
    let (_, m2) = check_word_not_tty(&s("apple"), &s("apple"));
    merge_marks(&mut alphabet, &m2);
    assert_eq!(alphabet[0], 2);
    assert_eq!(alphabet[(b'r' - b'a') as usize], 0);
    let before = alphabet.clone();
    merge_marks(&mut alphabet, &m1);
    assert_eq!(alphabet, before);
    let line: String = alphabet.iter().map(|m| mark_letter(*m)).collect();
    assert_eq!(line, "GXXXGXXXXXXGXXXGXRXXXXXXXX");
}
