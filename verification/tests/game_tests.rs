use wordle::feedback::Color;
use wordle::game::{Round, RoundStatus, SubmitResult};
use wordle::stats::{GameRecord, Session};

fn strs(xs: &[&str]) -> Vec<String> {
    xs.iter().map(|x| x.to_string()).collect()
}

fn acceptable() -> Vec<String> {
    strs(&["apple", "crane", "paper", "lapel", "slate", "plead", "maple", "ample", "pearl", "leapt"])
}

#[test]
fn invalid_words_leave_the_round_unchanged() {
    let mut r = Round::new("apple".to_string());
    assert_eq!(r.submit(&"zzzzz".to_string(), &acceptable(), false), SubmitResult::Invalid);
    assert_eq!(r.guesses.len(), 0);
    assert_eq!(r.status, RoundStatus::Playing);
}

#[test]
fn guessing_the_answer_wins() {
    let mut r = Round::new("apple".to_string());
    assert_eq!(r.submit(&"paper".to_string(), &acceptable(), false), SubmitResult::Accepted);
    assert_eq!(r.feedback[0].1, vec![Color::Yellow, Color::Yellow, Color::Green, Color::Yellow, Color::Red]);
    assert_eq!(r.status, RoundStatus::Playing);
    assert_eq!(r.submit(&"apple".to_string(), &acceptable(), false), SubmitResult::Accepted);
    assert_eq!(r.status, RoundStatus::Won);
    assert_eq!(r.guesses, strs(&["paper", "apple"]));
    assert_eq!(r.alphabet[0], 2);
}

#[test]
fn six_misses_lose() {
    let mut r = Round::new("apple".to_string());
    for g in ["crane", "slate", "paper", "lapel", "plead"] {
        assert_eq!(r.submit(&g.to_string(), &acceptable(), false), SubmitResult::Accepted);
        assert_eq!(r.status, RoundStatus::Playing);
    }
    assert_eq!(r.submit(&"maple".to_string(), &acceptable(), false), SubmitResult::Accepted);
    assert_eq!(r.status, RoundStatus::Lost);
    assert_eq!(r.guesses.len(), 6);
}

#[test]
fn hard_mode_refuses_dropping_clues() {
    let mut r = Round::new("apple".to_string());
    assert_eq!(r.submit(&"paper".to_string(), &acceptable(), true), SubmitResult::Accepted);
    // `slate` drops the green `p` in the middle.
    assert_eq!(r.submit(&"slate".to_string(), &acceptable(), true), SubmitResult::Invalid);
    assert_eq!(r.guesses.len(), 1);
    // Without hard mode it is fine.
    assert_eq!(r.submit(&"slate".to_string(), &acceptable(), false), SubmitResult::Accepted);
    // The answer is never refused.
    assert_eq!(r.submit(&"apple".to_string(), &acceptable(), true), SubmitResult::Accepted);
    assert_eq!(r.status, RoundStatus::Won);
}

#[test]
fn usage_counts_accepted_guesses() {
    let mut s = Session::new();
    let mut r = Round::new("apple".to_string());
    assert_eq!(s.guess(&mut r, &"zzzzz".to_string(), &acceptable(), false), SubmitResult::Invalid);
    assert_eq!(s.usage.count_of(&"zzzzz".to_string()), 0);
    s.guess(&mut r, &"paper".to_string(), &acceptable(), false);
    s.guess(&mut r, &"paper".to_string(), &acceptable(), false);
    s.guess(&mut r, &"apple".to_string(), &acceptable(), false);
    assert_eq!(s.usage.count_of(&"paper".to_string()), 2);
    assert_eq!(s.usage.count_of(&"apple".to_string()), 1);
    s.finish_round(&r);
    assert_eq!(s.total_rounds, 1);
    assert_eq!(s.victories, 1);
    assert_eq!(s.victory_tries, 3);
    assert_eq!(s.records.len(), 1);
    assert_eq!(s.records[0].answer, "apple");
}

#[test]
fn a_lost_round_adds_no_attempts() {
    let mut s = Session::new();
    let mut r = Round::new("apple".to_string());
    for g in ["crane", "slate", "paper", "lapel", "plead", "maple"] {
        s.guess(&mut r, &g.to_string(), &acceptable(), false);
    }
    s.finish_round(&r);
    assert_eq!((s.total_rounds, s.victories, s.victory_tries), (1, 0, 0));
}

#[test]
fn state_records_give_the_statistics() {
    let records = vec![
        GameRecord { answer: "APPLE".to_string(), guesses: strs(&["CRANE", "APPLE"]) },
        GameRecord { answer: "CRANE".to_string(), guesses: strs(&["SLATE", "PAPER", "Slate"]) },
    ];
    let s = Session::from_state(7, records);
    assert_eq!(s.total_rounds, 7);
    assert_eq!(s.victories, 1);
    assert_eq!(s.victory_tries, 2);
    assert_eq!(s.usage.count_of(&"slate".to_string()), 2);
    assert_eq!(s.usage.count_of(&"crane".to_string()), 1);
    assert_eq!(s.usage.count_of(&"CRANE".to_string()), 0);
    let ranked = s.usage.ranked();
    let names: Vec<(String, i32)> = ranked;
    assert_eq!(
        names,
        vec![
            ("slate".to_string(), 2),
            ("apple".to_string(), 1),
            ("crane".to_string(), 1),
            ("paper".to_string(), 1)
        ]
    );
}
