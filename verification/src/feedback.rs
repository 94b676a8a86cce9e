//! Feedback on a guess: the colour of each position and the best colour seen
//! of each letter.

use vstd::prelude::*;
use crate::text::chars_of;
use crate::words::{is_word, is_letter};

verus! {

/// The colour shown for one position of a guess.
#[derive(Clone, Copy, Debug, PartialEq, Eq, Structural)]
pub enum Color {
    /// The letter does not occur (any more) in the answer.
    Red,
    /// The letter occurs in the answer at another position.
    Yellow,
    /// The letter is at this position in the answer.
    Green,
}

/// The letter that shows a colour: `R`, `Y` or `G`.
pub open spec fn color_char(c: Color) -> char {
    match c {
        Color::Red => 'R',
        Color::Yellow => 'Y',
        Color::Green => 'G',
    }
}

/// The letter that shows a colour.
pub fn color_letter(c: Color) -> (l: char)
    ensures
        l == color_char(c),
{
    match c {
        Color::Red => 'R',
        Color::Yellow => 'Y',
        Color::Green => 'G',
    }
}

/// The letter that shows a letter mark in the alphabet line: `X` unknown,
/// `R`, `Y`, `G` for the ranks 0, 1, 2.
pub fn mark_letter(m: i32) -> (l: char)
    requires
        -1 <= m <= 2,
    ensures
        l == if m == -1 {
            'X'
        } else if m == 0 {
            'R'
        } else if m == 1 {
            'Y'
        } else {
            'G'
        },
{
    if m == -1 {
        'X'
    } else if m == 0 {
        'R'
    } else if m == 1 {
        'Y'
    } else {
        'G'
    }
}

/// Rank of a colour in the alphabet display: red 0, yellow 1, green 2
/// (-1 stands for a letter not yet guessed).
pub open spec fn rank(c: Color) -> int {
    match c {
        Color::Red => 0,
        Color::Yellow => 1,
        Color::Green => 2,
    }
}

/// The rank of a colour.
pub fn color_rank(c: Color) -> (r: i32)
    ensures
        r == rank(c),
{
    match c {
        Color::Red => 0,
        Color::Yellow => 1,
        Color::Green => 2,
    }
}

/// Number of positions below `n` where the answer holds `c` and the guess
/// does not match the answer.
pub open spec fn unmatched_upto(a: Seq<char>, g: Seq<char>, c: char, n: int) -> nat
    decreases n,
{
    if n <= 0 {
        0
    } else {
        unmatched_upto(a, g, c, n - 1) + if a[n - 1] == c && a[n - 1] != g[n - 1] {
            1nat
        } else {
            0nat
        }
    }
}

/// Copies of `c` in the answer that the guess does not hit in place.
pub open spec fn unmatched(a: Seq<char>, g: Seq<char>, c: char) -> nat {
    unmatched_upto(a, g, c, a.len() as int)
}

/// Number of positions below `n` where the guess holds `c` and does not match
/// the answer.
pub open spec fn pending_upto(a: Seq<char>, g: Seq<char>, c: char, n: int) -> nat
    decreases n,
{
    if n <= 0 {
        0
    } else {
        pending_upto(a, g, c, n - 1) + if g[n - 1] == c && a[n - 1] != g[n - 1] {
            1nat
        } else {
            0nat
        }
    }
}

/// Colour of position `i` of guess `g` against answer `a`: green where the
/// letters agree; otherwise yellow while earlier unmatched copies of the
/// letter in the guess have not used up the unmatched copies in the answer,
/// red after that.
pub open spec fn color_at(a: Seq<char>, g: Seq<char>, i: int) -> Color {
    if a[i] == g[i] {
        Color::Green
    } else if pending_upto(a, g, g[i], i) < unmatched(a, g, g[i]) {
        Color::Yellow
    } else {
        Color::Red
    }
}

/// The colours of a whole guess.
pub open spec fn score(a: Seq<char>, g: Seq<char>) -> Seq<Color> {
    Seq::new(g.len(), |i: int| color_at(a, g, i))
}

/// Best rank that the positions below `n` give letter number `k`
/// (`a` is 0), -1 when none of them holds it.
pub open spec fn mark_upto(g: Seq<char>, cols: Seq<Color>, k: int, n: int) -> int
    decreases n,
{
    if n <= 0 {
        -1
    } else {
        let prev = mark_upto(g, cols, k, n - 1);
        if (g[n - 1] as u32) == 97 + k && rank(cols[n - 1]) > prev {
            rank(cols[n - 1])
        } else {
            prev
        }
    }
}

/// The 26 letter marks of one guess with its colours.
pub open spec fn letter_marks(g: Seq<char>, cols: Seq<Color>) -> Seq<i32> {
    Seq::new(26, |k: int| mark_upto(g, cols, k, g.len() as int) as i32)
}

proof fn lemma_mark_range(g: Seq<char>, cols: Seq<Color>, k: int, n: int)
    ensures
        -1 <= mark_upto(g, cols, k, n) <= 2,
    decreases n,
{
    if n > 0 {
        lemma_mark_range(g, cols, k, n - 1);
    }
}

fn count_unmatched(a: &Vec<char>, g: &Vec<char>, c: char) -> (r: usize)
    requires
        a.len() == g.len(),
    ensures
        r == unmatched(a@, g@, c),
{
    let mut r: usize = 0;
    for k in 0..a.len()
        invariant
            a.len() == g.len(),
            r == unmatched_upto(a@, g@, c, k as int),
            r <= k,
    {
        if a[k] == c && a[k] != g[k] {
            r = r + 1;
        }
    }
    r
}

fn count_pending(a: &Vec<char>, g: &Vec<char>, c: char, i: usize) -> (r: usize)
    requires
        a.len() == g.len(),
        i <= g.len(),
    ensures
        r == pending_upto(a@, g@, c, i as int),
{
    let mut r: usize = 0;
    for k in 0..i
        invariant
            a.len() == g.len(),
            i <= g.len(),
            r == pending_upto(a@, g@, c, k as int),
            r <= k,
    {
        if g[k] == c && a[k] != g[k] {
            r = r + 1;
        }
    }
    r
}

/// Colours of `guess` against `answer`, both of equal length.
pub fn score_chars(answer: &Vec<char>, guess: &Vec<char>) -> (cols: Vec<Color>)
    requires
        answer.len() == guess.len(),
    ensures
        cols@ == score(answer@, guess@),
{
    let n = guess.len();
    let mut cols: Vec<Color> = Vec::new();
    for i in 0..n
        invariant
            n == guess.len(),
            answer.len() == guess.len(),
            cols@ == score(answer@, guess@).take(i as int),
    {
        let col = if answer[i] == guess[i] {
            Color::Green
        } else {
            let c = guess[i];
            let u = count_unmatched(answer, guess, c);
            let p = count_pending(answer, guess, c, i);
            if p < u {
                Color::Yellow
            } else {
                Color::Red
            }
        };
        cols.push(col);
        assert(score(answer@, guess@).take(i + 1) == score(answer@, guess@).take(i as int).push(
            col,
        ));
    }
    assert(score(answer@, guess@).take(n as int) == score(answer@, guess@));
    cols
}

/// The 26 letter marks (index 0 is `a`) of a guess of lowercase letters with
/// its colours: for each letter, the best rank among its positions, -1 for a
/// letter the guess does not hold.
pub fn marks_of(guess: &Vec<char>, cols: &Vec<Color>) -> (marks: Vec<i32>)
    requires
        guess.len() == cols.len(),
        forall|i: int| 0 <= i < guess.len() ==> is_letter(#[trigger] guess@[i]),
    ensures
        marks@ == letter_marks(guess@, cols@),
{
    let mut marks: Vec<i32> = Vec::new();
    for k in 0..26usize
        invariant
            marks.len() == k,
            forall|j: int| 0 <= j < k ==> marks@[j] == -1,
    {
        marks.push(-1);
    }
    for i in 0..guess.len()
        invariant
            guess.len() == cols.len(),
            forall|i: int| 0 <= i < guess.len() ==> is_letter(#[trigger] guess@[i]),
            marks.len() == 26,
            forall|k: int| 0 <= k < 26 ==> marks@[k] == mark_upto(guess@, cols@, k, i as int),
    {
        let k = (guess[i] as u32 - 97) as usize;
        let r = color_rank(cols[i]);
        if r > marks[k] {
            marks.set(k, r);
        }
        assert forall|j: int| 0 <= j < 26 implies marks@[j] == mark_upto(
            guess@,
            cols@,
            j,
            i + 1,
        ) by {
            lemma_mark_range(guess@, cols@, j, i as int);
        }
    }
    proof {
        assert forall|k: int| 0 <= k < 26 implies marks@[k] == letter_marks(guess@, cols@)[k] by {
            lemma_mark_range(guess@, cols@, k, guess.len() as int);
        }
    }
    assert(marks@ == letter_marks(guess@, cols@));
    marks
}

/// Scores `guess` against `answer`, two words of five lowercase letters:
/// the colour of each position, and the 26 letter marks of the guess.
pub fn check_word_not_tty(answer: &String, guess: &String) -> (outcome: (Vec<Color>, Vec<i32>))
    requires
        is_word(answer@),
        is_word(guess@),
    ensures
        outcome.0@ == score(answer@, guess@),
        outcome.1@ == letter_marks(guess@, score(answer@, guess@)),
{
    let a = chars_of(answer.as_str());
    let g = chars_of(guess.as_str());
    let cols = score_chars(&a, &g);
    let marks = marks_of(&g, &cols);
    (cols, marks)
}

/// Folds the marks of a new guess into the alphabet display: each letter
/// keeps the best mark seen.
pub fn merge_marks(alphabet: &mut Vec<i32>, marks: &Vec<i32>)
    requires
        old(alphabet).len() == marks.len(),
    ensures
        final(alphabet)@ == merged(old(alphabet)@, marks@),
{
    let n = marks.len();
    for j in 0..n
        invariant
            n == marks.len(),
            alphabet.len() == n,
            forall|k: int|
                0 <= k < j ==> alphabet@[k] == if old(alphabet)@[k] < marks@[k] {
                    marks@[k]
                } else {
                    old(alphabet)@[k]
                },
            forall|k: int| j <= k < n ==> alphabet@[k] == old(alphabet)@[k],
    {
        if alphabet[j] < marks[j] {
            alphabet.set(j, marks[j]);
        }
    }
    assert(alphabet@ =~= merged(old(alphabet)@, marks@));
}

/// Each letter keeps the better of its two marks.
pub open spec fn merged(a: Seq<i32>, m: Seq<i32>) -> Seq<i32> {
    Seq::new(a.len(), |k: int| if a[k] < m[k] { m[k] } else { a[k] })
}

/// Folding marks into the alphabet only raises letters, folding the same
/// marks twice changes nothing more, and the order of two guesses does not
/// matter.
pub proof fn lemma_merge_laws(a: Seq<i32>, m: Seq<i32>, m2: Seq<i32>)
    requires
        a.len() == m.len(),
        m.len() == m2.len(),
    ensures
        forall|k: int| 0 <= k < a.len() ==> a[k] <= #[trigger] merged(a, m)[k] && m[k] <= merged(a, m)[k],
        merged(merged(a, m), m) == merged(a, m),
        merged(merged(a, m), m2) == merged(merged(a, m2), m),
{
    assert(merged(merged(a, m), m) =~= merged(a, m));
    assert(merged(merged(a, m), m2) =~= merged(merged(a, m2), m));
}

/// Occurrences of `c` among the first `n` characters of `s`.
pub open spec fn count_upto(s: Seq<char>, c: char, n: int) -> nat
    decreases n,
{
    if n <= 0 {
        0
    } else {
        count_upto(s, c, n - 1) + if s[n - 1] == c {
            1nat
        } else {
            0nat
        }
    }
}

/// Positions below `n` where the guess holds `c` and is coloured yellow.
pub open spec fn yellow_upto(a: Seq<char>, g: Seq<char>, c: char, n: int) -> nat
    decreases n,
{
    if n <= 0 {
        0
    } else {
        yellow_upto(a, g, c, n - 1) + if g[n - 1] == c && color_at(a, g, n - 1) == Color::Yellow {
            1nat
        } else {
            0nat
        }
    }
}

/// Positions below `n` where the guess holds `c` and is coloured green.
pub open spec fn green_upto(a: Seq<char>, g: Seq<char>, c: char, n: int) -> nat
    decreases n,
{
    if n <= 0 {
        0
    } else {
        green_upto(a, g, c, n - 1) + if g[n - 1] == c && a[n - 1] == g[n - 1] {
            1nat
        } else {
            0nat
        }
    }
}

/// Among the first `n` positions, the yellow copies of a letter are its
/// unmatched copies in the guess, cut off at the unmatched copies in the
/// answer.
pub proof fn lemma_yellow_upto(a: Seq<char>, g: Seq<char>, c: char, n: int)
    requires
        a.len() == g.len(),
        0 <= n <= g.len(),
    ensures
        yellow_upto(a, g, c, n) == if pending_upto(a, g, c, n) < unmatched(a, g, c) {
            pending_upto(a, g, c, n)
        } else {
            unmatched(a, g, c)
        },
    decreases n,
{
    if n > 0 {
        lemma_yellow_upto(a, g, c, n - 1);
    }
}

proof fn lemma_counts_split(a: Seq<char>, g: Seq<char>, c: char, n: int)
    requires
        a.len() == g.len(),
        0 <= n <= g.len(),
    ensures
        count_upto(a, c, n) == green_upto(a, g, c, n) + unmatched_upto(a, g, c, n),
        count_upto(g, c, n) == green_upto(a, g, c, n) + pending_upto(a, g, c, n),
    decreases n,
{
    if n > 0 {
        lemma_counts_split(a, g, c, n - 1);
    }
}

/// For every letter, the guess shows as many green and yellow copies as the
/// smaller of its count in the answer and its count in the guess.
pub proof fn lemma_letter_feedback_count(a: Seq<char>, g: Seq<char>, c: char)
    requires
        a.len() == g.len(),
    ensures
        green_upto(a, g, c, g.len() as int) + yellow_upto(a, g, c, g.len() as int) == if count_upto(
            a,
            c,
            a.len() as int,
        ) < count_upto(g, c, g.len() as int) {
            count_upto(a, c, a.len() as int)
        } else {
            count_upto(g, c, g.len() as int)
        },
{
    lemma_counts_split(a, g, c, g.len() as int);
    lemma_yellow_upto(a, g, c, g.len() as int);
}

/// A guess of the answer's length is all green exactly when it is the answer.
pub proof fn lemma_all_green_iff_answer(a: Seq<char>, g: Seq<char>)
    requires
        a.len() == g.len(),
    ensures
        (forall|i: int| 0 <= i < g.len() ==> #[trigger] score(a, g)[i] == Color::Green) <==> a
            == g,
{
    if forall|i: int| 0 <= i < g.len() ==> #[trigger] score(a, g)[i] == Color::Green {
        assert forall|i: int| 0 <= i < g.len() implies a[i] == g[i] by {
            assert(score(a, g)[i] == Color::Green);
        }
        assert(a =~= g);
    }
}

} // verus!
