//! Screening: which words still fit all the feedback of a round.

use vstd::prelude::*;
use crate::feedback::{Color, color_at, count_upto, lemma_yellow_upto, pending_upto, score, unmatched, yellow_upto};
use crate::hard_mode::{blank_greens, lemma_count_blank_greens, lemma_count_update, lemma_count_zero, lemma_free_is_unmatched};
use crate::text::chars_of;
use crate::words::{is_letter, is_word};

verus! {

/// Index of the first `c` in `s` at or after `from`; the length of `s` when
/// there is none.
pub open spec fn first_index(s: Seq<char>, c: char, from: int) -> int
    decreases s.len() - from,
{
    if from >= s.len() {
        s.len() as int
    } else if s[from] == c {
        from
    } else {
        first_index(s, c, from + 1)
    }
}

/// The yellow pass of screening, from position `j` on, over the candidate's
/// remaining letters `w` (used ones are `'0'`): a yellow letter of the
/// feedback must not stand at its own position in `w`, and takes the first
/// copy of it in `w`; `None` when a yellow letter fails.
pub open spec fn yellow_pass(prev: Seq<char>, cols: Seq<Color>, w: Seq<char>, j: int) -> Option<
    Seq<char>,
>
    decreases 5 - j,
{
    if j >= 5 {
        Some(w)
    } else if cols[j] == Color::Yellow {
        if prev[j] == w[j] {
            None
        } else {
            let k = first_index(w, prev[j], 0);
            if k >= w.len() {
                None
            } else {
                yellow_pass(prev, cols, w.update(k, '0'), j + 1)
            }
        }
    } else {
        yellow_pass(prev, cols, w, j + 1)
    }
}

/// Candidate `w` fits the feedback `cols` that guess `prev` got: the green
/// letters stand in place; with them blanked, every yellow letter passes
/// [`yellow_pass`]; and no red letter is among what is left of `w`.
pub open spec fn fits(prev: Seq<char>, cols: Seq<Color>, w: Seq<char>) -> bool {
    &&& forall|j: int| 0 <= j < 5 && cols[j] == Color::Green ==> #[trigger] w[j] == prev[j]
    &&& match yellow_pass(prev, cols, blank_greens(cols, w), 0) {
        Some(rest) => forall|j: int|
            0 <= j < 5 && #[trigger] cols[j] == Color::Red ==> !rest.contains(prev[j]),
        None => false,
    }
}

/// One guess of a round with the colours it got.
pub open spec fn entry_fits(e: (Vec<char>, Vec<Color>), w: Seq<char>) -> bool {
    fits(e.0@, e.1@, w)
}

/// `w` fits every feedback of `history`.
pub open spec fn fits_all(history: Seq<(Vec<char>, Vec<Color>)>, w: Seq<char>) -> bool {
    forall|i: int| 0 <= i < history.len() ==> #[trigger] entry_fits(history[i], w)
}

/// A well-formed feedback entry: a legal guess and five colours.
pub open spec fn entry_ok(e: (Vec<char>, Vec<Color>)) -> bool {
    is_word(e.0@) && e.1@.len() == 5
}

proof fn lemma_first_index(s: Seq<char>, c: char, from: int)
    requires
        0 <= from <= s.len(),
    ensures
        from <= first_index(s, c, from) <= s.len(),
        first_index(s, c, from) < s.len() ==> s[first_index(s, c, from)] == c,
        forall|k: int| from <= k < first_index(s, c, from) ==> s[k] != c,
    decreases s.len() - from,
{
    if from < s.len() && s[from] != c {
        lemma_first_index(s, c, from + 1);
    }
}

/// Decides [`fits`] the way the game screens words.
#[verifier::loop_isolation(false)]
pub fn fits_feedback(prev: &Vec<char>, cols: &Vec<Color>, word: &Vec<char>) -> (ok: bool)
    requires
        prev.len() == 5,
        cols.len() == 5,
        word.len() == 5,
    ensures
        ok == fits(prev@, cols@, word@),
{
    let mut gc: Vec<char> = word.clone();
    for j in 0..5usize
        invariant
            prev.len() == 5,
            cols.len() == 5,
            word.len() == 5,
            gc.len() == 5,
            forall|k: int| 0 <= k < j && cols@[k] == Color::Green ==> #[trigger] word@[k] == prev@[k],
            forall|k: int|
                0 <= k < 5 ==> #[trigger] gc@[k] == if k < j && cols@[k] == Color::Green {
                    '0'
                } else {
                    word@[k]
                },
    {
        if cols[j] == Color::Green {
            if gc[j] != prev[j] {
                return false;
            }
            gc.set(j, '0');
        }
    }
    assert(gc@ =~= blank_greens(cols@, word@));
    let ghost g0 = gc@;
    for j in 0..5usize
        invariant
            prev.len() == 5,
            cols.len() == 5,
            gc.len() == 5,
            forall|k: int| 0 <= k < 5 && cols@[k] == Color::Green ==> #[trigger] word@[k] == prev@[k],
            g0 == blank_greens(cols@, word@),
            yellow_pass(prev@, cols@, gc@, j as int) == yellow_pass(prev@, cols@, g0, 0),
    {
        if cols[j] == Color::Yellow {
            let c = prev[j];
            if c == gc[j] {
                return false;
            }
            let mut k: usize = 0;
            while k < 5 && gc[k] != c
                invariant
                    gc.len() == 5,
                    k <= 5,
                    first_index(gc@, c, 0) == first_index(gc@, c, k as int),
                decreases 5 - k,
            {
                k = k + 1;
            }
            if k == 5 {
                return false;
            }
            gc.set(k, '0');
        }
    }
    let ghost rest = gc@;
    assert(yellow_pass(prev@, cols@, rest, 5) == Some(rest));
    for j in 0..5usize
        invariant
            prev.len() == 5,
            cols.len() == 5,
            word.len() == 5,
            forall|k: int| 0 <= k < 5 && cols@[k] == Color::Green ==> #[trigger] word@[k] == prev@[k],
            g0 == blank_greens(cols@, word@),
            yellow_pass(prev@, cols@, g0, 0) == Some(rest),
            gc@ == rest,
            gc.len() == 5,
            forall|i: int|
                0 <= i < j && #[trigger] cols@[i] == Color::Red ==> !rest.contains(prev@[i]),
    {
        if cols[j] == Color::Red {
            let c = prev[j];
            for k in 0..5usize
                invariant
                    gc@ == rest,
                    gc.len() == 5,
                    forall|m: int| 0 <= m < k ==> rest[m] != c,
            {
                if gc[k] == c {
                    assert(rest[k as int] == c);
                    return false;
                }
            }
        }
    }
    true
}

/// The words of `candidates` that fit every feedback of `history`, in order.
pub fn possible_words(candidates: &Vec<String>, history: &Vec<(Vec<char>, Vec<Color>)>) -> (r: Vec<
    String,
>)
    requires
        forall|i: int| 0 <= i < candidates.len() ==> is_word(#[trigger] candidates@[i]@),
        forall|i: int| 0 <= i < history.len() ==> entry_ok(#[trigger] history@[i]),
    ensures
        r.deep_view() == candidates.deep_view().filter(|w: Seq<char>| fits_all(history@, w)),
{
    let ghost pred = |w: Seq<char>| fits_all(history@, w);
    let mut r: Vec<String> = Vec::new();
    for i in 0..candidates.len()
        invariant
            forall|i: int| 0 <= i < candidates.len() ==> is_word(#[trigger] candidates@[i]@),
            forall|i: int| 0 <= i < history.len() ==> entry_ok(#[trigger] history@[i]),
            r.deep_view() == candidates.deep_view().take(i as int).filter(pred),
            pred == (|w: Seq<char>| fits_all(history@, w)),
    {
        let w = chars_of(candidates[i].as_str());
        assert(is_word(candidates@[i as int]@));
        let mut ok = true;
        let mut h: usize = 0;
        while h < history.len() && ok
            invariant
                forall|i: int| 0 <= i < history.len() ==> entry_ok(#[trigger] history@[i]),
                w.len() == 5,
                h <= history.len(),
                forall|m: int| 0 <= m < h ==> #[trigger] entry_fits(history@[m], w@),
                !ok ==> h < history.len() && !entry_fits(history@[h as int], w@),
            decreases history.len() - h + (if ok { 1int } else { 0int }),
        {
            assert(entry_ok(history@[h as int]));
            if !fits_feedback(&history[h].0, &history[h].1, &w) {
                ok = false;
            } else {
                h = h + 1;
            }
        }
        assert(ok <==> fits_all(history@, w@));
        assert(candidates.deep_view()[i as int] == w@);
        let ghost before = r.deep_view();
        proof {
            candidates.deep_view().lemma_take_succ_push(i as int);
            candidates.deep_view().take(i as int).lemma_filter_push(w@, pred);
        }
        if ok {
            r.push(candidates[i].clone());
            assert(r.deep_view() =~= before.push(w@));
        }
        assert(candidates.deep_view().take(i + 1) == candidates.deep_view().take(i as int).push(w@));
        assert(pred(w@) == ok);
        assert(candidates.deep_view().take(i as int).push(w@).filter(pred) == if ok {
            before.push(w@)
        } else {
            before
        });
        assert(r.deep_view() == candidates.deep_view().take(i + 1).filter(pred));
    }
    assert(candidates.deep_view().take(candidates.len() as int) =~= candidates.deep_view());
    r
}

proof fn lemma_pending_monotone(a: Seq<char>, g: Seq<char>, c: char, m: int, n: int)
    requires
        0 <= m <= n,
    ensures
        pending_upto(a, g, c, m) <= pending_upto(a, g, c, n),
    decreases n - m,
{
    if m < n {
        lemma_pending_monotone(a, g, c, m, n - 1);
    }
}

/// The yellow pass over what is left of the answer itself never fails, and
/// uses up one copy per yellow letter.
proof fn lemma_yellow_pass_on_answer(a: Seq<char>, g: Seq<char>, w: Seq<char>, j: int)
    requires
        is_word(a),
        is_word(g),
        w.len() == 5,
        0 <= j <= 5,
        forall|c: char|
            is_letter(c) ==> #[trigger] count_upto(w, c, 5) + yellow_upto(a, g, c, j) == unmatched(
                a,
                g,
                c,
            ),
        forall|k: int| 0 <= k < 5 ==> #[trigger] w[k] == '0' || w[k] == a[k],
    ensures
        yellow_pass(g, score(a, g), w, j) is Some,
        ({
            let rest = yellow_pass(g, score(a, g), w, j)->Some_0;
            &&& rest.len() == 5
            &&& forall|c: char|
                is_letter(c) ==> #[trigger] count_upto(rest, c, 5) + yellow_upto(a, g, c, 5)
                    == unmatched(a, g, c)
        }),
    decreases 5 - j,
{
    if j < 5 {
        let cols = score(a, g);
        assert(is_letter(g[j]));
        if cols[j] == Color::Yellow {
            let c0 = g[j];
            assert(color_at(a, g, j) == Color::Yellow);
            lemma_yellow_upto(a, g, c0, j);
            assert(count_upto(w, c0, 5) + yellow_upto(a, g, c0, j) == unmatched(a, g, c0));
            lemma_count_zero(w, c0, 5);
            lemma_first_index(w, c0, 0);
            let k = first_index(w, c0, 0);
            assert(w[j] == '0' || w[j] == a[j]);
            let w2 = w.update(k, '0');
            assert forall|k2: int| 0 <= k2 < 5 implies #[trigger] w2[k2] == '0' || w2[k2] == a[k2] by {
                assert(w[k2] == '0' || w[k2] == a[k2]);
            }
            assert forall|d: char| is_letter(d) implies #[trigger] count_upto(w2, d, 5)
                + yellow_upto(a, g, d, j + 1) == unmatched(a, g, d) by {
                lemma_count_update(w, k, '0', d, 5);
                assert(count_upto(w, d, 5) + yellow_upto(a, g, d, j) == unmatched(a, g, d));
            }
            lemma_yellow_pass_on_answer(a, g, w2, j + 1);
        } else {
            assert forall|d: char| is_letter(d) implies #[trigger] count_upto(w, d, 5) + yellow_upto(
                a,
                g,
                d,
                j + 1,
            ) == unmatched(a, g, d) by {
                assert(count_upto(w, d, 5) + yellow_upto(a, g, d, j) == unmatched(a, g, d));
            }
            lemma_yellow_pass_on_answer(a, g, w, j + 1);
        }
    }
}

/// Screening never drops the answer: the answer fits the feedback of any
/// guess scored against it.
pub proof fn lemma_answer_fits_own_feedback(a: Seq<char>, g: Seq<char>)
    requires
        is_word(a),
        is_word(g),
    ensures
        fits(g, score(a, g), a),
{
    let cols = score(a, g);
    let w0 = blank_greens(cols, a);
    assert forall|c: char| is_letter(c) implies #[trigger] count_upto(w0, c, 5) + yellow_upto(
        a,
        g,
        c,
        0,
    ) == unmatched(a, g, c) by {
        lemma_count_blank_greens(cols, a, c, 5);
        lemma_free_is_unmatched(a, g, c, 5);
    }
    lemma_yellow_pass_on_answer(a, g, w0, 0);
    let rest = yellow_pass(g, cols, w0, 0)->Some_0;
    assert forall|j: int| 0 <= j < 5 && #[trigger] cols[j] == Color::Red implies !rest.contains(
        g[j],
    ) by {
        let c = g[j];
        assert(is_letter(c));
        assert(color_at(a, g, j) == Color::Red);
        lemma_pending_monotone(a, g, c, j, 5);
        lemma_yellow_upto(a, g, c, 5);
        assert(count_upto(rest, c, 5) + yellow_upto(a, g, c, 5) == unmatched(a, g, c));
        lemma_count_zero(rest, c, 5);
    }
}

/// Screening never drops the answer: after any guesses scored against the
/// answer, the answer still fits all of their feedback.
pub proof fn lemma_answer_always_possible(a: Seq<char>, history: Seq<(Vec<char>, Vec<Color>)>)
    requires
        is_word(a),
        forall|i: int|
            0 <= i < history.len() ==> is_word(#[trigger] history[i].0@) && history[i].1@ == score(
                a,
                history[i].0@,
            ),
    ensures
        fits_all(history, a),
{
    assert forall|i: int| 0 <= i < history.len() implies #[trigger] entry_fits(history[i], a) by {
        lemma_answer_fits_own_feedback(a, history[i].0@);
    }
}

/// Screening keeps only words that hold every green letter: a word that fits
/// a feedback has, at each position coloured green, the letter the guess had
/// there.
pub proof fn lemma_fits_keeps_greens(prev: Seq<char>, cols: Seq<Color>, w: Seq<char>)
    requires
        fits(prev, cols, w),
    ensures
        forall|j: int| 0 <= j < 5 && cols[j] == Color::Green ==> w[j] == prev[j],
{
}

/// Every word that [`possible_words`] can list holds the green letters of
/// every feedback of the history.
pub proof fn lemma_possible_words_keep_greens(
    candidates: Seq<Seq<char>>,
    history: Seq<(Vec<char>, Vec<Color>)>,
    i: int,
    h: int,
    j: int,
)
    requires
        0 <= i < candidates.filter(|w: Seq<char>| fits_all(history, w)).len(),
        0 <= h < history.len(),
        0 <= j < 5,
        history[h].1@[j] == Color::Green,
    ensures
        candidates.filter(|w: Seq<char>| fits_all(history, w))[i][j] == history[h].0@[j],
{
    let pred = |w: Seq<char>| fits_all(history, w);
    broadcast use vstd::seq_lib::group_filter_ensures;

    let w = candidates.filter(pred)[i];
    assert(pred(w));
    assert(entry_fits(history[h], w));
    lemma_fits_keeps_greens(history[h].0@, history[h].1@, w);
}

/// Some yellow position from `j` on holds letter `c` in the guess.
pub open spec fn yellow_from(prev: Seq<char>, cols: Seq<Color>, j: int, c: char) -> bool {
    exists|i: int| j <= i < 5 && cols[i] == Color::Yellow && #[trigger] prev[i] == c
}

/// Some position of the five holds `c`.
pub open spec fn holds(s: Seq<char>, c: char) -> bool {
    exists|k: int| 0 <= k < 5 && #[trigger] s[k] == c
}

/// A yellow position in `j..i` holds the same letter as position `i`.
pub open spec fn yellow_twin_before(prev: Seq<char>, cols: Seq<Color>, j: int, i: int) -> bool {
    exists|i2: int| j <= i2 < i && cols[i2] == Color::Yellow && #[trigger] prev[i2] == prev[i]
}

proof fn lemma_yp_shape(prev: Seq<char>, cols: Seq<Color>, s: Seq<char>, j: int)
    requires
        0 <= j <= 5,
        s.len() == 5,
        yellow_pass(prev, cols, s, j) is Some,
    ensures
        yellow_pass(prev, cols, s, j)->Some_0.len() == 5,
        forall|k: int|
            0 <= k < 5 ==> #[trigger] yellow_pass(prev, cols, s, j)->Some_0[k] == s[k]
                || yellow_pass(prev, cols, s, j)->Some_0[k] == '0',
    decreases 5 - j,
{
    if j < 5 {
        if cols[j] == Color::Yellow {
            lemma_first_index(s, prev[j], 0);
            let s2 = s.update(first_index(s, prev[j], 0), '0');
            lemma_yp_shape(prev, cols, s2, j + 1);
        } else {
            lemma_yp_shape(prev, cols, s, j + 1);
        }
    }
}

proof fn lemma_yp_changed(prev: Seq<char>, cols: Seq<Color>, s: Seq<char>, j: int, k: int)
    requires
        0 <= j <= 5,
        0 <= k < 5,
        s.len() == 5,
        yellow_pass(prev, cols, s, j) is Some,
        yellow_pass(prev, cols, s, j)->Some_0[k] != s[k],
    ensures
        yellow_from(prev, cols, j, s[k]),
    decreases 5 - j,
{
    if j < 5 {
        if cols[j] == Color::Yellow {
            lemma_first_index(s, prev[j], 0);
            let k0 = first_index(s, prev[j], 0);
            let s2 = s.update(k0, '0');
            lemma_yp_shape(prev, cols, s2, j + 1);
            if k == k0 {
                assert(prev[j] == s[k]);
            } else {
                lemma_yp_changed(prev, cols, s2, j + 1, k);
                let i = choose|i: int| j + 1 <= i < 5 && cols[i] == Color::Yellow && #[trigger] prev[i] == s2[k];
                assert(prev[i] == s[k]);
            }
        } else {
            lemma_yp_changed(prev, cols, s, j + 1, k);
            let i = choose|i: int| j + 1 <= i < 5 && cols[i] == Color::Yellow && #[trigger] prev[i] == s[k];
            assert(prev[i] == s[k]);
        }
    } else {
        assert(yellow_pass(prev, cols, s, j) == Some(s));
    }
}

proof fn lemma_yp_found(prev: Seq<char>, cols: Seq<Color>, s: Seq<char>, j: int, i: int)
    requires
        0 <= j <= i < 5,
        s.len() == 5,
        forall|m: int| 0 <= m < 5 ==> is_letter(#[trigger] prev[m]),
        cols[i] == Color::Yellow,
        yellow_pass(prev, cols, s, j) is Some,
    ensures
        holds(s, prev[i]),
    decreases 5 - j,
{
    if cols[j] == Color::Yellow {
        lemma_first_index(s, prev[j], 0);
        let k0 = first_index(s, prev[j], 0);
        if i == j {
            assert(s[k0] == prev[i]);
        } else {
            let s2 = s.update(k0, '0');
            lemma_yp_found(prev, cols, s2, j + 1, i);
            let k = choose|k: int| 0 <= k < 5 && #[trigger] s2[k] == prev[i];
            assert(is_letter(prev[i]));
            assert(s[k] == prev[i]);
        }
    } else {
        lemma_yp_found(prev, cols, s, j + 1, i);
    }
}

proof fn lemma_yp_not_own(prev: Seq<char>, cols: Seq<Color>, s: Seq<char>, j: int, i: int)
    requires
        0 <= j <= i < 5,
        s.len() == 5,
        cols[i] == Color::Yellow,
        !yellow_twin_before(prev, cols, j, i),
        yellow_pass(prev, cols, s, j) is Some,
    ensures
        s[i] != prev[i],
    decreases 5 - j,
{
    if i > j {
        if cols[j] == Color::Yellow {
            lemma_first_index(s, prev[j], 0);
            let k0 = first_index(s, prev[j], 0);
            let s2 = s.update(k0, '0');
            assert(prev[j] != prev[i]);
            assert(!yellow_twin_before(prev, cols, j + 1, i)) by {
                if yellow_twin_before(prev, cols, j + 1, i) {
                    let i2 = choose|i2: int| j + 1 <= i2 < i && cols[i2] == Color::Yellow && #[trigger] prev[i2] == prev[i];
                    assert(j <= i2 < i && cols[i2] == Color::Yellow && prev[i2] == prev[i]);
                }
            }
            lemma_yp_not_own(prev, cols, s2, j + 1, i);
        } else {
            assert(!yellow_twin_before(prev, cols, j + 1, i)) by {
                if yellow_twin_before(prev, cols, j + 1, i) {
                    let i2 = choose|i2: int| j + 1 <= i2 < i && cols[i2] == Color::Yellow && #[trigger] prev[i2] == prev[i];
                    assert(j <= i2 < i && cols[i2] == Color::Yellow && prev[i2] == prev[i]);
                }
            }
            lemma_yp_not_own(prev, cols, s, j + 1, i);
        }
    }
}

/// A word that fits a feedback holds each yellow letter at some position the
/// feedback did not colour green.
pub proof fn lemma_fits_holds_yellows(prev: Seq<char>, cols: Seq<Color>, w: Seq<char>, i: int)
    requires
        is_word(prev),
        cols.len() == 5,
        w.len() == 5,
        fits(prev, cols, w),
        0 <= i < 5,
        cols[i] == Color::Yellow,
    ensures
        exists|k: int| 0 <= k < 5 && cols[k] != Color::Green && #[trigger] w[k] == prev[i],
{
    let s0 = blank_greens(cols, w);
    lemma_yp_found(prev, cols, s0, 0, i);
    let k = choose|k: int| 0 <= k < 5 && #[trigger] s0[k] == prev[i];
    assert(is_letter(prev[i]));
    assert(cols[k] != Color::Green && w[k] == prev[i]);
}

/// A word that fits a feedback does not hold the first yellow copy of a
/// letter at that yellow position.
pub proof fn lemma_fits_moves_yellows(prev: Seq<char>, cols: Seq<Color>, w: Seq<char>, i: int)
    requires
        cols.len() == 5,
        w.len() == 5,
        fits(prev, cols, w),
        0 <= i < 5,
        cols[i] == Color::Yellow,
        forall|i2: int| 0 <= i2 < i && cols[i2] == Color::Yellow ==> prev[i2] != prev[i],
    ensures
        w[i] != prev[i],
{
    let s0 = blank_greens(cols, w);
    lemma_yp_not_own(prev, cols, s0, 0, i);
}

/// A word that fits a feedback does not hold, outside the green positions, a
/// red letter that the feedback never shows yellow.
pub proof fn lemma_fits_drops_reds(prev: Seq<char>, cols: Seq<Color>, w: Seq<char>, j: int, k: int)
    requires
        cols.len() == 5,
        w.len() == 5,
        fits(prev, cols, w),
        0 <= j < 5,
        0 <= k < 5,
        cols[j] == Color::Red,
        cols[k] != Color::Green,
        forall|i: int| 0 <= i < 5 && cols[i] == Color::Yellow ==> prev[i] != prev[j],
    ensures
        w[k] != prev[j],
{
    let s0 = blank_greens(cols, w);
    lemma_yp_shape(prev, cols, s0, 0);
    let rest = yellow_pass(prev, cols, s0, 0)->Some_0;
    if w[k] == prev[j] {
        assert(s0[k] == prev[j]);
        if rest[k] != s0[k] {
            lemma_yp_changed(prev, cols, s0, 0, k);
            let i = choose|i: int| 0 <= i < 5 && cols[i] == Color::Yellow && #[trigger] prev[i] == s0[k];
            assert(prev[i] != prev[j]);
        }
        assert(rest[k] == prev[j]);
        assert(rest.contains(prev[j]));
    }
}

} // verus!
