//! The hard-mode rule: a guess must reuse what the previous feedback revealed.

use vstd::prelude::*;
use crate::feedback::{Color, count_upto, lemma_yellow_upto, score, unmatched_upto, yellow_upto};
use crate::words::{is_letter, is_word};

verus! {

/// Positions below `n` that the previous feedback did not colour green and
/// where `guess` holds `c`.
pub open spec fn free_upto(cols: Seq<Color>, guess: Seq<char>, c: char, n: int) -> nat
    decreases n,
{
    if n <= 0 {
        0
    } else {
        free_upto(cols, guess, c, n - 1) + if cols[n - 1] != Color::Green && guess[n - 1] == c {
            1nat
        } else {
            0nat
        }
    }
}

/// Positions below `n` of the previous guess that hold `c` and were coloured
/// yellow.
pub open spec fn yellows_upto(last: Seq<char>, cols: Seq<Color>, c: char, n: int) -> nat
    decreases n,
{
    if n <= 0 {
        0
    } else {
        yellows_upto(last, cols, c, n - 1) + if cols[n - 1] == Color::Yellow && last[n - 1] == c {
            1nat
        } else {
            0nat
        }
    }
}

/// Hard mode accepts `guess` after the previous guess `last` got colours
/// `cols`: every green letter stays in place, and the `k`-th yellow copy of a
/// letter finds a `k`-th copy of it among the positions of `guess` that were
/// not green.
pub open spec fn hard_mode_ok(last: Seq<char>, cols: Seq<Color>, guess: Seq<char>) -> bool {
    &&& forall|j: int| 0 <= j < 5 && cols[j] == Color::Green ==> #[trigger] guess[j] == last[j]
    &&& forall|i: int|
        0 <= i < 5 && #[trigger] cols[i] == Color::Yellow ==> yellows_upto(last, cols, last[i], i + 1)
            <= free_upto(cols, guess, last[i], 5)
}

/// `s` with `'0'` at the positions coloured green.
pub open spec fn blank_greens(cols: Seq<Color>, s: Seq<char>) -> Seq<char> {
    Seq::new(s.len(), |j: int| if cols[j] == Color::Green { '0' } else { s[j] })
}

pub proof fn lemma_count_blank_greens(cols: Seq<Color>, s: Seq<char>, c: char, n: int)
    requires
        0 <= n <= s.len(),
        c != '0',
    ensures
        count_upto(blank_greens(cols, s), c, n) == free_upto(cols, s, c, n),
    decreases n,
{
    if n > 0 {
        lemma_count_blank_greens(cols, s, c, n - 1);
    }
}

/// How a one-position update changes a count.
pub proof fn lemma_count_update(s: Seq<char>, j: int, x: char, c: char, n: int)
    requires
        0 <= j < n <= s.len(),
    ensures
        count_upto(s.update(j, x), c, n) + (if s[j] == c { 1int } else { 0int }) == count_upto(
            s,
            c,
            n,
        ) + (if x == c { 1int } else { 0int }),
    decreases n,
{
    if n - 1 > j {
        lemma_count_update(s, j, x, c, n - 1);
    } else {
        assert(s.update(j, x).take(j) == s.take(j));
        lemma_count_prefix_eq(s.update(j, x), s, c, j);
    }
}

/// Counts depend only on the prefix counted.
pub proof fn lemma_count_prefix_eq(s: Seq<char>, t: Seq<char>, c: char, n: int)
    requires
        0 <= n <= s.len(),
        n <= t.len(),
        forall|k: int| 0 <= k < n ==> s[k] == t[k],
    ensures
        count_upto(s, c, n) == count_upto(t, c, n),
    decreases n,
{
    if n > 0 {
        lemma_count_prefix_eq(s, t, c, n - 1);
    }
}

/// A count is zero exactly when the character does not occur.
pub proof fn lemma_count_zero(s: Seq<char>, c: char, n: int)
    requires
        0 <= n <= s.len(),
    ensures
        (count_upto(s, c, n) == 0) <==> (forall|k: int| 0 <= k < n ==> s[k] != c),
    decreases n,
{
    if n > 0 {
        lemma_count_zero(s, c, n - 1);
    }
}

/// Decides [`hard_mode_ok`] the way the game does: greens are checked and
/// blanked first, then each yellow letter takes the first free copy of it.
pub fn hard_mode_check(last: &Vec<char>, cols: &Vec<Color>, guess: &Vec<char>) -> (ok: bool)
    requires
        last.len() == 5,
        cols.len() == 5,
        guess.len() == 5,
        forall|i: int| 0 <= i < 5 ==> is_letter(#[trigger] last@[i]),
    ensures
        ok == hard_mode_ok(last@, cols@, guess@),
{
    let mut gc: Vec<char> = guess.clone();
    for j in 0..5usize
        invariant
            last.len() == 5,
            cols.len() == 5,
            guess.len() == 5,
            gc.len() == 5,
            forall|k: int| 0 <= k < j && cols@[k] == Color::Green ==> #[trigger] guess@[k] == last@[k],
            forall|k: int|
                0 <= k < 5 ==> #[trigger] gc@[k] == if k < j && cols@[k] == Color::Green {
                    '0'
                } else {
                    guess@[k]
                },
    {
        if cols[j] == Color::Green {
            if guess[j] != last[j] {
                return false;
            }
            gc.set(j, '0');
        }
    }
    assert(gc@ =~= blank_greens(cols@, guess@));
    let ghost g0 = gc@;
    proof {
        assert forall|c: char| c != '0' implies count_upto(g0, c, 5) == free_upto(
            cols@,
            guess@,
            c,
            5,
        ) by {
            lemma_count_blank_greens(cols@, guess@, c, 5);
        }
    }
    for i in 0..5usize
        invariant
            last.len() == 5,
            cols.len() == 5,
            guess.len() == 5,
            gc.len() == 5,
            forall|k: int| 0 <= k < 5 ==> is_letter(#[trigger] last@[k]),
            forall|k: int| 0 <= k < 5 && cols@[k] == Color::Green ==> #[trigger] guess@[k] == last@[k],
            forall|c: char|
                c != '0' ==> #[trigger] count_upto(gc@, c, 5) + yellows_upto(last@, cols@, c, i as int)
                    == free_upto(cols@, guess@, c, 5),
            forall|k: int|
                0 <= k < i && #[trigger] cols@[k] == Color::Yellow ==> yellows_upto(
                    last@,
                    cols@,
                    last@[k],
                    k + 1,
                ) <= free_upto(cols@, guess@, last@[k], 5),
    {
        let ghost before = gc@;
        if cols[i] == Color::Yellow {
            let c = last[i];
            let mut found = false;
            let mut j: usize = 0;
            while j < 5 && !found
                invariant
                    gc.len() == 5,
                    j <= 5,
                    !found ==> gc@ == before && forall|k: int| 0 <= k < j ==> gc@[k] != c,
                    found ==> exists|k: int|
                        0 <= k < 5 && before[k] == c && gc@ == before.update(k, '0'),
                decreases 5 - j + (if found { 0int } else { 1int }),
            {
                if gc[j] == c {
                    gc.set(j, '0');
                    found = true;
                } else {
                    j = j + 1;
                }
            }
            assert(is_letter(last@[i as int]));
            if !found {
                proof {
                    lemma_count_zero(before, c, 5);
                    assert(count_upto(before, c, 5) + yellows_upto(last@, cols@, c, i as int)
                        == free_upto(cols@, guess@, c, 5));
                }
                return false;
            }
            proof {
                let k = choose|k: int| 0 <= k < 5 && before[k] == c && gc@ == before.update(k, '0');
                assert forall|d: char| d != '0' implies #[trigger] count_upto(gc@, d, 5)
                    + yellows_upto(last@, cols@, d, i + 1) == free_upto(cols@, guess@, d, 5) by {
                    lemma_count_update(before, k, '0', d, 5);
                    assert(count_upto(before, d, 5) + yellows_upto(last@, cols@, d, i as int)
                        == free_upto(cols@, guess@, d, 5));
                }
                assert(count_upto(gc@, c, 5) + yellows_upto(last@, cols@, c, i + 1) == free_upto(
                    cols@,
                    guess@,
                    c,
                    5,
                ));
            }
        } else {
            assert forall|d: char| d != '0' implies #[trigger] count_upto(gc@, d, 5) + yellows_upto(
                last@,
                cols@,
                d,
                i + 1,
            ) == free_upto(cols@, guess@, d, 5) by {
                assert(count_upto(before, d, 5) + yellows_upto(last@, cols@, d, i as int)
                    == free_upto(cols@, guess@, d, 5));
            }
        }
    }
    true
}

pub proof fn lemma_free_is_unmatched(a: Seq<char>, g: Seq<char>, c: char, n: int)
    requires
        a.len() == g.len(),
        0 <= n <= g.len(),
    ensures
        free_upto(score(a, g), a, c, n) == unmatched_upto(a, g, c, n),
        yellows_upto(g, score(a, g), c, n) == yellow_upto(a, g, c, n),
    decreases n,
{
    if n > 0 {
        lemma_free_is_unmatched(a, g, c, n - 1);
    }
}

/// Hard mode never rejects the answer: after any guess `g` scored against
/// answer `a`, guessing `a` keeps every green and yellow letter.
pub proof fn lemma_answer_passes_hard_mode(a: Seq<char>, g: Seq<char>)
    requires
        is_word(a),
        is_word(g),
    ensures
        hard_mode_ok(g, score(a, g), a),
{
    assert forall|i: int|
        0 <= i < 5 && #[trigger] score(a, g)[i] == Color::Yellow implies yellows_upto(
        g,
        score(a, g),
        g[i],
        i + 1,
    ) <= free_upto(score(a, g), a, g[i], 5) by {
        lemma_free_is_unmatched(a, g, g[i], i + 1);
        lemma_free_is_unmatched(a, g, g[i], 5);
        lemma_yellow_upto(a, g, g[i], i + 1);
    }
}

proof fn lemma_free_positive(cols: Seq<Color>, guess: Seq<char>, c: char, n: int)
    requires
        0 <= n <= guess.len(),
        n <= cols.len(),
        free_upto(cols, guess, c, n) > 0,
    ensures
        exists|k: int| 0 <= k < n && cols[k] != Color::Green && #[trigger] guess[k] == c,
    decreases n,
{
    if !(cols[n - 1] != Color::Green && guess[n - 1] == c) {
        lemma_free_positive(cols, guess, c, n - 1);
        let k = choose|k: int| 0 <= k < n - 1 && cols[k] != Color::Green && #[trigger] guess[k] == c;
        assert(0 <= k < n && cols[k] != Color::Green && guess[k] == c);
    }
}

/// What hard mode demands of an accepted guess: every green letter of the
/// previous feedback stays in place, and every yellow letter appears at some
/// position that was not green.
pub proof fn lemma_hard_mode_keeps_clues(last: Seq<char>, cols: Seq<Color>, guess: Seq<char>, i: int)
    requires
        cols.len() == 5,
        guess.len() == 5,
        hard_mode_ok(last, cols, guess),
        0 <= i < 5,
    ensures
        cols[i] == Color::Green ==> guess[i] == last[i],
        cols[i] == Color::Yellow ==> exists|k: int|
            0 <= k < 5 && cols[k] != Color::Green && #[trigger] guess[k] == last[i],
{
    if cols[i] == Color::Yellow {
        assert(yellows_upto(last, cols, last[i], i + 1) >= 1);
        lemma_free_positive(cols, guess, last[i], 5);
    }
}

} // verus!
