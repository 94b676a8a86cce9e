//! One round of the game: guesses, their feedback, the alphabet display and
//! the round's outcome.

use vstd::prelude::*;
use crate::feedback::{Color, check_word_not_tty, letter_marks, merge_marks, merged, score};
use crate::hard_mode::{hard_mode_check, hard_mode_ok};
use crate::screen::{entry_ok, fits_all, lemma_answer_always_possible};
use crate::text::chars_of;
use crate::words::is_word;

verus! {

/// Number of guesses a round allows.
pub const MAX_GUESSES: usize = 6;

/// Where a round stands.
#[derive(Clone, Copy, Debug, PartialEq, Eq, Structural)]
pub enum RoundStatus {
    /// More guesses may come.
    Playing,
    /// The last guess was the answer.
    Won,
    /// All guesses are used and none was the answer.
    Lost,
}

/// What became of one line the player typed.
#[derive(Clone, Copy, Debug, PartialEq, Eq, Structural)]
pub enum SubmitResult {
    /// Not an acceptable word, or (in hard mode) it drops what the previous
    /// feedback revealed; the round is unchanged.
    Invalid,
    /// The guess was scored and recorded.
    Accepted,
}

/// The alphabet display before any guess: every letter unknown.
pub open spec fn fresh_alphabet() -> Seq<i32> {
    Seq::new(26, |k: int| -1i32)
}

/// The alphabet display after the first `n` guesses of `fb`.
pub open spec fn alphabet_after(fb: Seq<(Vec<char>, Vec<Color>)>, n: int) -> Seq<i32>
    decreases n,
{
    if n <= 0 {
        fresh_alphabet()
    } else {
        merged(alphabet_after(fb, n - 1), letter_marks(fb[n - 1].0@, fb[n - 1].1@))
    }
}

/// The status that guesses `gs` give a round with answer `a`.
pub open spec fn status_of(gs: Seq<Seq<char>>, a: Seq<char>) -> RoundStatus {
    if gs.len() > 0 && gs.last() == a {
        RoundStatus::Won
    } else if gs.len() >= 6 {
        RoundStatus::Lost
    } else {
        RoundStatus::Playing
    }
}

/// One round.
pub struct Round {
    /// The answer, five lowercase letters.
    pub answer: String,
    /// The accepted guesses, in order.
    pub guesses: Vec<String>,
    /// Each accepted guess as letters, with the colours it got.
    pub feedback: Vec<(Vec<char>, Vec<Color>)>,
    /// The best mark of each letter so far (index 0 is `a`; -1 unknown,
    /// 0 red, 1 yellow, 2 green).
    pub alphabet: Vec<i32>,
    /// Where the round stands.
    pub status: RoundStatus,
}

impl Round {
    /// The round's invariant: the feedback is the scoring of each guess
    /// against the answer, the alphabet folds all of it, and the status
    /// follows from the guesses; a round stops at its first correct guess.
    pub open spec fn wf(&self) -> bool {
        &&& is_word(self.answer@)
        &&& self.guesses.len() == self.feedback.len()
        &&& self.guesses.len() <= 6
        &&& forall|i: int|
            0 <= i < self.guesses.len() ==> {
                &&& is_word(#[trigger] self.guesses@[i]@)
                &&& self.feedback@[i].0@ == self.guesses@[i]@
                &&& self.feedback@[i].1@ == score(self.answer@, self.guesses@[i]@)
            }
        &&& forall|i: int|
            0 <= i < self.guesses.len() - 1 ==> #[trigger] self.guesses@[i]@ != self.answer@
        &&& self.alphabet@ == alphabet_after(self.feedback@, self.feedback.len() as int)
        &&& self.status == status_of(self.guesses.deep_view(), self.answer@)
    }

    /// A round with answer `answer` and no guesses yet.
    pub fn new(answer: String) -> (r: Round)
        requires
            is_word(answer@),
        ensures
            r.wf(),
            r.answer@ == answer@,
            r.guesses.len() == 0,
            r.status == RoundStatus::Playing,
    {
        let mut alphabet: Vec<i32> = Vec::new();
        for k in 0..26usize
            invariant
                alphabet@ == fresh_alphabet().take(k as int),
        {
            alphabet.push(-1);
            assert(fresh_alphabet().take(k + 1) =~= fresh_alphabet().take(k as int).push(-1i32));
        }
        assert(alphabet@ =~= fresh_alphabet());
        let r = Round {
            answer,
            guesses: Vec::new(),
            feedback: Vec::new(),
            alphabet,
            status: RoundStatus::Playing,
        };
        assert(r.guesses.deep_view().len() == 0);
        r
    }

    /// Handles one guess (a typed line already trimmed and lowercased): a
    /// word that is not acceptable, or that hard mode refuses after the
    /// previous guess, is invalid; otherwise it is scored, recorded and
    /// folded into the alphabet, and the status is updated.
    pub fn submit(&mut self, guess: &String, acceptable: &Vec<String>, difficult: bool) -> (r:
        SubmitResult)
        requires
            old(self).wf(),
            old(self).status == RoundStatus::Playing,
            forall|i: int| 0 <= i < acceptable.len() ==> is_word(#[trigger] acceptable@[i]@),
        ensures
            final(self).wf(),
            final(self).answer@ == old(self).answer@,
            ({
                let w = guess@;
                let n = old(self).feedback.len();
                r == SubmitResult::Invalid <==> !acceptable.deep_view().contains(w) || (difficult
                    && n > 0 && !hard_mode_ok(
                    old(self).feedback@[n - 1].0@,
                    old(self).feedback@[n - 1].1@,
                    w,
                ))
            }),
            r == SubmitResult::Invalid ==> *final(self) == *old(self),
            r == SubmitResult::Accepted ==> {
                &&& final(self).guesses.deep_view() == old(self).guesses.deep_view().push(guess@)
                &&& final(self).feedback@.last().1@ == score(old(self).answer@, guess@)
                &&& final(self).feedback@.drop_last() == old(self).feedback@
                &&& forall|k: int|
                    0 <= k < 26 ==> old(self).alphabet@[k] <= #[trigger] final(self).alphabet@[k]
            },
    {
        let w = guess.clone();
        let mut found = false;
        let mut i: usize = 0;
        while i < acceptable.len() && !found
            invariant
                i <= acceptable.len(),
                found ==> acceptable.deep_view().contains(w@),
                !found ==> forall|k: int| 0 <= k < i ==> acceptable.deep_view()[k] != w@,
            decreases acceptable.len() - i + (if found { 0int } else { 1int }),
        {
            if acceptable[i] == w {
                assert(acceptable.deep_view()[i as int] == w@);
                found = true;
            } else {
                i = i + 1;
            }
        }
        if !found {
            return SubmitResult::Invalid;
        }
        proof {
            let k = choose|k: int| 0 <= k < acceptable.len() && acceptable.deep_view()[k] == w@;
            assert(is_word(acceptable@[k]@));
        }
        let wc = chars_of(w.as_str());
        let n = self.feedback.len();
        if difficult && n > 0 {
            assert(is_word(self.guesses@[n - 1]@));
            if !hard_mode_check(&self.feedback[n - 1].0, &self.feedback[n - 1].1, &wc) {
                return SubmitResult::Invalid;
            }
        }
        let ghost old_self = *self;
        let outcome = check_word_not_tty(&self.answer, &w);
        let cols = outcome.0;
        let marks = outcome.1;
        proof {
            lemma_alphabet_len(self.feedback@, n as int);
            crate::feedback::lemma_merge_laws(self.alphabet@, marks@, marks@);
        }
        merge_marks(&mut self.alphabet, &marks);
        let ghost gw = w@;
        self.guesses.push(w);
        self.feedback.push((wc, cols));
        assert(self.guesses.deep_view() =~= old_self.guesses.deep_view().push(gw));
        assert(self.feedback@.drop_last() =~= old_self.feedback@);
        assert(alphabet_after(self.feedback@, self.feedback.len() as int) == merged(
            alphabet_after(old_self.feedback@, n as int),
            letter_marks(gw, score(self.answer@, gw)),
        )) by {
            assert forall|m: int| 0 <= m <= n implies alphabet_after(self.feedback@, m)
                == alphabet_after(old_self.feedback@, m) by {
                lemma_alphabet_prefix(self.feedback@, old_self.feedback@, m);
            }
        }
        if w_equals_answer(&self.guesses[n], &self.answer) {
            self.status = RoundStatus::Won;
        } else if self.guesses.len() >= MAX_GUESSES {
            self.status = RoundStatus::Lost;
        }
        assert(self.guesses.deep_view().last() == gw);
        SubmitResult::Accepted
    }
}

fn w_equals_answer(w: &String, a: &String) -> (b: bool)
    ensures
        b == (w@ == a@),
{
    *w == *a
}

proof fn lemma_alphabet_len(fb: Seq<(Vec<char>, Vec<Color>)>, n: int)
    ensures
        alphabet_after(fb, n).len() == 26,
    decreases n,
{
    if n > 0 {
        lemma_alphabet_len(fb, n - 1);
    }
}

proof fn lemma_alphabet_prefix(
    fb: Seq<(Vec<char>, Vec<Color>)>,
    fb0: Seq<(Vec<char>, Vec<Color>)>,
    m: int,
)
    requires
        0 <= m <= fb0.len(),
        fb0.len() <= fb.len(),
        forall|i: int| 0 <= i < fb0.len() ==> fb[i] == fb0[i],
    ensures
        alphabet_after(fb, m) == alphabet_after(fb0, m),
    decreases m,
{
    if m > 0 {
        lemma_alphabet_prefix(fb, fb0, m - 1);
    }
}

/// In hard mode the answer is never refused: once it is typed, the round
/// accepts it whenever it is an acceptable word.
pub proof fn lemma_answer_never_refused(round: Round, acceptable: Seq<Seq<char>>)
    requires
        round.wf(),
        acceptable.contains(round.answer@),
    ensures
        ({
            let n = round.feedback.len();
            n > 0 ==> hard_mode_ok(
                round.feedback@[n - 1].0@,
                round.feedback@[n - 1].1@,
                round.answer@,
            )
        }),
{
    let n = round.feedback.len();
    if n > 0 {
        assert(is_word(round.guesses@[n - 1]@));
        crate::hard_mode::lemma_answer_passes_hard_mode(round.answer@, round.guesses@[n - 1]@);
    }
}

/// Screening never drops the answer: when the answer is among the
/// candidates, it is among the words that fit the round's feedback.
pub proof fn lemma_answer_among_possible(round: Round, candidates: Seq<Seq<char>>)
    requires
        round.wf(),
        candidates.contains(round.answer@),
    ensures
        candidates.filter(|w: Seq<char>| fits_all(round.feedback@, w)).contains(round.answer@),
{
    assert forall|i: int| 0 <= i < round.feedback.len() implies is_word(
        #[trigger] round.feedback@[i].0@,
    ) && round.feedback@[i].1@ == score(round.answer@, round.feedback@[i].0@) by {
        assert(is_word(round.guesses@[i]@));
    }
    lemma_answer_always_possible(round.answer@, round.feedback@);
    let pred = |w: Seq<char>| fits_all(round.feedback@, w);
    broadcast use vstd::seq_lib::group_filter_ensures;

}

/// Every feedback entry of a round is well formed, so the round's history
/// can be screened.
pub proof fn lemma_round_entries_ok(round: Round)
    requires
        round.wf(),
    ensures
        forall|i: int| 0 <= i < round.feedback.len() ==> entry_ok(#[trigger] round.feedback@[i]),
{
    assert forall|i: int| 0 <= i < round.feedback.len() implies entry_ok(
        #[trigger] round.feedback@[i],
    ) by {
        assert(is_word(round.guesses@[i]@));
    }
}

/// A round whose last guess is the answer is won, whatever the number of
/// guesses; it is lost exactly when six guesses are used and the last one is
/// not the answer; otherwise it goes on.
pub proof fn lemma_status_law(gs: Seq<Seq<char>>, a: Seq<char>)
    ensures
        gs.len() > 0 && gs[gs.len() - 1] == a ==> status_of(gs, a) == RoundStatus::Won,
        status_of(gs, a) == RoundStatus::Won ==> gs.len() > 0 && gs[gs.len() - 1] == a,
        status_of(gs, a) == RoundStatus::Lost <==> (gs.len() >= 6 && !(gs.len() > 0 && gs[gs.len()
            - 1] == a)),
        status_of(gs, a) == RoundStatus::Playing <==> (gs.len() < 6 && !(gs.len() > 0
            && gs[gs.len() - 1] == a)),
{
}

/// In a round, guessing the answer wins, also on the sixth guess.
pub proof fn lemma_answer_guess_wins(round: Round)
    requires
        round.wf(),
        round.guesses.len() > 0,
        round.guesses@[round.guesses.len() - 1]@ == round.answer@,
    ensures
        round.status == RoundStatus::Won,
{
    let gs = round.guesses.deep_view();
    assert(gs[gs.len() - 1] == round.guesses@[round.guesses.len() - 1]@);
    lemma_status_law(gs, round.answer@);
}

} // verus!
