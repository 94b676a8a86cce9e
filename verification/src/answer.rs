//! Choosing the answer of each round.

use rand::rngs::StdRng;
use rand::seq::SliceRandom;
use rand::SeedableRng;
use vstd::prelude::*;
use crate::text::{lowercase, to_lowercase, trim, trimmed};
use crate::words::{all_words, is_word};

verus! {

/// The answer text that [`read_answer_word`] produces: the `--word` value
/// lowercased then trimmed; in random mode the chosen list word lowercased
/// then trimmed; otherwise the typed line trimmed then lowercased.
pub open spec fn answer_text(
    is_word_present: bool,
    is_random_present: bool,
    word_value: Seq<char>,
    listed: Seq<char>,
    typed: Seq<char>,
) -> Seq<char> {
    if is_word_present {
        trimmed(lowercase(word_value))
    } else if is_random_present {
        trimmed(lowercase(listed))
    } else {
        lowercase(trimmed(typed))
    }
}

fn str_to_string(s: &str) -> (r: String)
    ensures
        r@ == s@,
{
    broadcast use vstd::string::group_string_axioms;

    s.to_string()
}

/// Reads the answer of a round: the `--word` value when one was given, the
/// list word at `index` in random mode, else the line the player typed.
pub fn read_answer_word(
    is_word_present: bool,
    is_random_present: bool,
    word_value: &String,
    answer: &Vec<String>,
    index: usize,
    typed: &String,
) -> (r: String)
    requires
        !is_word_present && is_random_present ==> index < answer.len(),
    ensures
        r@ == answer_text(
            is_word_present,
            is_random_present,
            word_value@,
            if index < answer.len() {
                answer@[index as int]@
            } else {
                Seq::empty()
            },
            typed@,
        ),
        !is_word_present && is_random_present && is_word(answer@[index as int]@) ==> r@
            == answer@[index as int]@,
{
    if is_word_present {
        let low = to_lowercase(word_value.as_str());
        str_to_string(trim(low.as_str()))
    } else if is_random_present {
        let low = to_lowercase(answer[index].as_str());
        proof {
            if is_word(answer@[index as int]@) {
                lemma_word_fixed(answer@[index as int]@);
            }
        }
        str_to_string(trim(low.as_str()))
    } else {
        to_lowercase(trim(typed.as_str()))
    }
}

/// A legal word is ASCII, has no capital letters and no white space at its
/// ends.
pub proof fn lemma_word_fixed(w: Seq<char>)
    requires
        is_word(w),
    ensures
        crate::text::all_ascii(w),
        w.map_values(|c: char| crate::text::ascii_lower(c)) == w,
        trimmed(w) == w,
{
    assert(crate::text::all_ascii(w)) by {
        assert forall|i: int| 0 <= i < w.len() implies (w[i] as u32) < 128 by {
            assert(crate::words::is_letter(w[i]));
        }
    }
    assert forall|i: int| 0 <= i < w.len() implies #[trigger] crate::text::ascii_lower(w[i]) == w[i] by {
        assert(crate::words::is_letter(w[i]));
    }
    assert(w.map_values(|c: char| crate::text::ascii_lower(c)) =~= w);
    assert(crate::words::is_letter(w[0]));
    assert(crate::words::is_letter(w[4]));
    assert(crate::text::first_kept(w, 0) == 0);
    assert(crate::text::last_kept(w, 5) == 5);
    assert(w.subrange(0, 5) =~= w);
}

/// Why a round cannot start.
#[derive(Clone, Copy, Debug, PartialEq, Eq, Structural)]
pub enum GameError {
    /// The given answer is not in the answer list.
    AnswerNotInCandidates,
}

impl GameError {
    /// The message the game prints for this error.
    pub fn message(&self) -> (m: &'static str)
        ensures
            m@ == "The specified answer word is not in the candidate vocabulary"@,
    {
        match self {
            GameError::AnswerNotInCandidates => "The specified answer word is not in the candidate vocabulary",
        }
    }
}

/// The answer of round number `round_index`: in random mode the list word at
/// that position of the shuffled order; otherwise the given or typed word,
/// which must be in the answer list.
pub fn choose_answer(
    is_word_present: bool,
    is_random_present: bool,
    word_value: &String,
    answers: &Vec<String>,
    order: &Vec<usize>,
    round_index: usize,
    typed: &String,
) -> (r: Result<String, GameError>)
    requires
        is_random_present ==> round_index < order.len() && order@[round_index as int] < answers.len(),
    ensures
        is_random_present ==> (r matches Ok(w) && w@ == answer_text(
            is_word_present,
            true,
            word_value@,
            answers@[order@[round_index as int] as int]@,
            typed@,
        )),
        is_random_present && !is_word_present && all_words(answers.deep_view()) ==> (r matches Ok(w)
            && w@ == answers@[order@[round_index as int] as int]@),
        !is_random_present ==> {
            let t = answer_text(is_word_present, false, word_value@, Seq::empty(), typed@);
            &&& (r is Ok <==> answers.deep_view().contains(t))
            &&& (r matches Ok(w) ==> w@ == t)
            &&& (r matches Err(e) ==> e == GameError::AnswerNotInCandidates)
        },
{
    if is_random_present {
        let k = order[round_index];
        let w = read_answer_word(is_word_present, true, word_value, answers, k, typed);
        proof {
            if all_words(answers.deep_view()) {
                assert(is_word(answers.deep_view()[k as int]));
            }
        }
        Ok(w)
    } else {
        let w = read_answer_word(is_word_present, false, word_value, answers, 0, typed);
        let mut i: usize = 0;
        while i < answers.len()
            invariant
                !is_random_present,
                w@ == answer_text(is_word_present, false, word_value@, Seq::empty(), typed@),
                i <= answers.len(),
                forall|k: int| 0 <= k < i ==> answers.deep_view()[k] != w@,
            decreases answers.len() - i,
        {
            if answers[i] == w {
                assert(answers.deep_view()[i as int] == w@);
                return Ok(w);
            }
            i = i + 1;
        }
        Err(GameError::AnswerNotInCandidates)
    }
}

/// The order `rand` gives `items` when shuffling them with a `StdRng` seeded
/// by `seed`.
pub uninterp spec fn seeded_shuffle(items: Seq<usize>, seed: u64) -> Seq<usize>;

/// Seeds `rand`'s `StdRng` with `seed` (`SeedableRng::seed_from_u64`) and
/// shuffles `items` with it (`SliceRandom::shuffle`). The generator is
/// deterministic, so the result is named [`seeded_shuffle`] of the items and
/// the seed; the shuffle swaps elements in place, so it is a permutation.
/// Which permutation it is is not stated.
#[verifier::external_body]
fn shuffle_seeded(items: &mut Vec<usize>, seed: u64)
    ensures
        final(items)@ == seeded_shuffle(old(items)@, seed),
        final(items)@.to_multiset() == old(items)@.to_multiset(),
{
    let mut rng = StdRng::seed_from_u64(seed);
    items.shuffle(&mut rng);
}

/// The indices `0..n` in the order that random mode plays them.
pub fn answer_order(n: usize, seed: u64) -> (r: Vec<usize>)
    ensures
        r@ == seeded_shuffle(Seq::new(n as nat, |i: int| i as usize), seed),
        r.len() == n,
        forall|i: int| 0 <= i < n ==> #[trigger] r@[i] < n,
        r@.to_multiset() == Seq::new(n as nat, |i: int| i as usize).to_multiset(),
{
    let mut v: Vec<usize> = Vec::new();
    for i in 0..n
        invariant
            v@ == Seq::new(i as nat, |k: int| k as usize),
    {
        v.push(i);
        assert(v@ =~= Seq::new((i + 1) as nat, |k: int| k as usize));
    }
    let ghost init = v@;
    shuffle_seeded(&mut v, seed);
    proof {
        vstd::seq_lib::to_multiset_len(v@);
        vstd::seq_lib::to_multiset_len(init);
        assert forall|i: int| 0 <= i < n implies #[trigger] v@[i] < n by {
            vstd::seq_lib::to_multiset_contains(v@, v@[i]);
            vstd::seq_lib::to_multiset_contains(init, v@[i]);
            assert(v@.contains(v@[i]));
        }
    }
    v
}

/// The first round to play: in random mode the `--day` value names it
/// (counting from 1), otherwise the first.
pub fn first_round(is_random_present: bool, day: i32) -> (r: usize)
    requires
        is_random_present ==> day >= 1,
    ensures
        r == if is_random_present {
            (day - 1) as usize
        } else {
            0usize
        },
{
    if is_random_present {
        (day - 1) as usize
    } else {
        0
    }
}

} // verus!
