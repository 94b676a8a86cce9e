use rand::rngs::StdRng;
use rand::seq::SliceRandom;
use rand::SeedableRng;
use wordle::answer::{answer_order, choose_answer, first_round, read_answer_word, GameError};
use wordle::options::{check_options, resolve_options, CliArgs, ConfigFile, OptionError};

fn strs(xs: &[&str]) -> Vec<String> {
    xs.iter().map(|x| x.to_string()).collect()
}

fn cli() -> CliArgs {
    CliArgs {
        word: None,
        random: false,
        difficult: false,
        stats: false,
        day: None,
        seed: None,
        final_set: None,
        acceptable_set: None,
        state: None,
        screen: false,
    }
}

fn config() -> ConfigFile {
    ConfigFile {
        random: None,
        difficult: None,
        stats: None,
        day: None,
        seed: None,
        final_set: None,
        acceptable_set: None,
        state: None,
        screen: None,
    }
}

#[test]
fn answers_are_read_from_the_right_place() {
    let list = strs(&["crane", "slate"]);
    let empty = String::new();
    assert_eq!(read_answer_word(true, false, &" CRANE ".to_string(), &list, 0, &empty), "crane");
    assert_eq!(read_answer_word(false, true, &empty, &list, 1, &empty), "slate");
    assert_eq!(read_answer_word(false, false, &empty, &list, 0, &" Slate\n".to_string()), "slate");
}

#[test]
fn a_chosen_answer_must_be_a_candidate() {
    let list = strs(&["crane", "slate"]);
    let empty = String::new();
    assert_eq!(choose_answer(true, false, &"CRANE".to_string(), &list, &Vec::new(), 0, &empty), Ok("crane".to_string()));
    assert_eq!(
        choose_answer(true, false, &"flute".to_string(), &list, &Vec::new(), 0, &empty),
        Err(GameError::AnswerNotInCandidates)
    );
    assert_eq!(choose_answer(false, true, &empty, &list, &vec![1, 0], 0, &empty), Ok("slate".to_string()));
    assert_eq!(
        GameError::AnswerNotInCandidates.message(),
        "The specified answer word is not in the candidate vocabulary"
    );
}

#[test]
fn random_order_is_the_seeded_shuffle() {
    let mut expected: Vec<usize> = (0..20).collect();
    expected.shuffle(&mut StdRng::seed_from_u64(7));
    let order = answer_order(20, 7);
    assert_eq!(order, expected);
    assert_ne!(order, (0..20).collect::<Vec<usize>>());
    let mut sorted = order.clone();
    sorted.sort();
    assert_eq!(sorted, (0..20).collect::<Vec<usize>>());
    assert_eq!(answer_order(20, 7), order);
    assert_eq!(first_round(true, 3), 2);
    assert_eq!(first_round(false, 3), 0);
}

#[test]
fn command_line_wins_over_config() {
    let mut c = cli();
    c.day = Some(4);
    c.state = Some("s.json".to_string());
    let mut f = config();
    f.random = Some(true);
    f.day = Some(9);
    f.seed = Some(5);
    f.final_set = Some("f.txt".to_string());
    let o = resolve_options(c, Some(f));
    assert!(o.random);
    assert_eq!(o.day, Some(4));
    assert_eq!(o.seed, Some(5));
    assert_eq!(o.final_set, Some("f.txt".to_string()));
    assert_eq!(o.state, Some(String::new()));
    assert!(!o.difficult);
    let mut c = cli();
    c.state = Some("s.json".to_string());
    let o = resolve_options(c, None);
    assert_eq!(o.state, Some("s.json".to_string()));
}

#[test]
fn option_rules() {
    let mut c = cli();
    c.word = Some("crane".to_string());
    c.random = true;
    assert_eq!(check_options(&resolve_options(c, None)), Err(OptionError::WordInRandomMode));
    let mut c = cli();
    c.seed = Some(3);
    assert_eq!(check_options(&resolve_options(c, None)), Err(OptionError::DaySeedWithoutRandom));
    let mut c = cli();
    c.state = Some("x".to_string());
    assert_eq!(check_options(&resolve_options(c, None)), Err(OptionError::StateWithoutRandom));
    let mut c = cli();
    c.random = true;
    c.day = Some(2);
    c.state = Some("x".to_string());
    assert_eq!(check_options(&resolve_options(c, None)), Ok(()));
    assert_eq!(
        OptionError::WordInRandomMode.message(),
        "The - w / - word parameter is not allowed in random mode"
    );
}
