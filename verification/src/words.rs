//! Words: what a legal word is, their order, and the word lists.

use vstd::prelude::*;
use crate::text::{chars_of, lowercase, to_lowercase, trim, trimmed};

verus! {

/// A lowercase ASCII letter.
pub open spec fn is_letter(c: char) -> bool {
    97 <= (c as u32) <= 122
}

/// A legal word: five lowercase ASCII letters.
pub open spec fn is_word(w: Seq<char>) -> bool {
    w.len() == 5 && forall|i: int| 0 <= i < 5 ==> is_letter(#[trigger] w[i])
}

/// Decides [`is_word`]. The game's own test (five bytes, each a lowercase
/// letter) accepts the same strings.
pub fn is_legal_word(w: &str) -> (b: bool)
    ensures
        b == is_word(w@),
{
    let cs = chars_of(w);
    if cs.len() != 5 {
        return false;
    }
    for i in 0..5usize
        invariant
            cs@ == w@,
            cs.len() == 5,
            forall|k: int| 0 <= k < i ==> is_letter(#[trigger] w@[k]),
    {
        let u = cs[i] as u32;
        if !(97 <= u && u <= 122) {
            return false;
        }
    }
    true
}

/// Lexicographic order on character sequences, by code point: the order of
/// `String`'s `<` (UTF-8 keeps code-point order byte by byte).
pub open spec fn lex_less(a: Seq<char>, b: Seq<char>) -> bool
    decreases a.len(),
{
    if a.len() == 0 {
        b.len() > 0
    } else if b.len() == 0 {
        false
    } else if (a[0] as u32) < (b[0] as u32) {
        true
    } else if a[0] == b[0] {
        lex_less(a.drop_first(), b.drop_first())
    } else {
        false
    }
}

/// No sequence comes before itself.
pub proof fn lemma_lex_irreflexive(a: Seq<char>)
    ensures
        !lex_less(a, a),
    decreases a.len(),
{
    if a.len() > 0 {
        lemma_lex_irreflexive(a.drop_first());
    }
}

/// The order is transitive.
pub proof fn lemma_lex_transitive(a: Seq<char>, b: Seq<char>, c: Seq<char>)
    requires
        lex_less(a, b),
        lex_less(b, c),
    ensures
        lex_less(a, c),
    decreases a.len(),
{
    if a.len() > 0 && b.len() > 0 && c.len() > 0 && a[0] == b[0] && b[0] == c[0] {
        lemma_lex_transitive(a.drop_first(), b.drop_first(), c.drop_first());
    }
}

proof fn lemma_char_code_injective(x: char, y: char)
    requires
        x != y,
    ensures
        (x as u32) != (y as u32),
{
}

/// Two different sequences are ordered one way or the other.
pub proof fn lemma_lex_total(a: Seq<char>, b: Seq<char>)
    requires
        a != b,
    ensures
        lex_less(a, b) || lex_less(b, a),
    decreases a.len(),
{
    if a.len() > 0 && b.len() > 0 {
        if a[0] == b[0] {
            if a.drop_first() == b.drop_first() {
                assert(a =~= seq![a[0]] + a.drop_first());
                assert(b =~= seq![b[0]] + b.drop_first());
            }
            lemma_lex_total(a.drop_first(), b.drop_first());
        } else {
            lemma_char_code_injective(a[0], b[0]);
        }
    } else if a.len() == 0 && b.len() == 0 {
        assert(a =~= b);
    }
}

/// Decides [`lex_less`] on two strings.
pub fn word_less(a: &String, b: &String) -> (r: bool)
    ensures
        r == lex_less(a@, b@),
{
    let x = chars_of(a.as_str());
    let y = chars_of(b.as_str());
    let mut i: usize = 0;
    assert(a@.skip(0) =~= a@);
    assert(b@.skip(0) =~= b@);
    while i < x.len() && i < y.len() && x[i] == y[i]
        invariant
            x@ == a@,
            y@ == b@,
            i <= x.len(),
            i <= y.len(),
            lex_less(a@, b@) == lex_less(a@.skip(i as int), b@.skip(i as int)),
        decreases x.len() - i,
    {
        assert(a@.skip(i as int).drop_first() =~= a@.skip(i + 1));
        assert(b@.skip(i as int).drop_first() =~= b@.skip(i + 1));
        i = i + 1;
    }
    if i == x.len() {
        i < y.len()
    } else if i == y.len() {
        false
    } else {
        (x[i] as u32) < (y[i] as u32)
    }
}

/// No later element comes before an earlier one.
pub open spec fn sorted(s: Seq<Seq<char>>) -> bool {
    forall|i: int, j: int| 0 <= i < j < s.len() ==> !lex_less(#[trigger] s[j], #[trigger] s[i])
}

/// Every element comes before every later one.
pub open spec fn strictly_sorted(s: Seq<Seq<char>>) -> bool {
    forall|i: int, j: int| 0 <= i < j < s.len() ==> lex_less(#[trigger] s[i], #[trigger] s[j])
}

/// The words of `v` in order, duplicates kept: what `Vec::sort` gives.
pub fn sort_words(v: &Vec<String>) -> (r: Vec<String>)
    ensures
        r.deep_view().to_multiset() == v.deep_view().to_multiset(),
        sorted(r.deep_view()),
{
    let mut r: Vec<String> = Vec::new();
    assert(r.deep_view() =~= v.deep_view().take(0));
    for i in 0..v.len()
        invariant
            r.deep_view().to_multiset() == v.deep_view().take(i as int).to_multiset(),
            sorted(r.deep_view()),
    {
        let w = v[i].clone();
        let mut p: usize = 0;
        while p < r.len() && !word_less(&w, &r[p])
            invariant
                p <= r.len(),
                forall|q: int| 0 <= q < p ==> !lex_less(w@, #[trigger] r.deep_view()[q]),
            decreases r.len() - p,
        {
            p = p + 1;
        }
        let ghost old_r = r.deep_view();
        r.insert(p, w);
        assert(r.deep_view() =~= old_r.insert(p as int, w@));
        proof {
            vstd::seq_lib::to_multiset_insert(old_r, p as int, w@);
            assert(v.deep_view().take(i + 1) =~= v.deep_view().take(i as int).push(w@));
            vstd::seq_lib::to_multiset_build(v.deep_view().take(i as int), w@);
            let s = r.deep_view();
            assert forall|a: int, b: int| 0 <= a < b < s.len() implies !lex_less(
                #[trigger] s[b],
                #[trigger] s[a],
            ) by {
                if a < p && b == p {
                } else if a == p && b > p {
                    lemma_lex_irreflexive(old_r[p as int]);
                    if lex_less(s[b], w@) {
                        lemma_lex_transitive(s[b], w@, old_r[p as int]);
                        assert(!lex_less(old_r[b - 1], old_r[p as int]));
                    }
                } else {
                    let a0 = if a < p { a } else { a - 1 };
                    let b0 = if b < p { b } else { b - 1 };
                    assert(s[a] == old_r[a0]);
                    assert(s[b] == old_r[b0]);
                }
            }
        }
    }
    assert(v.deep_view().take(v.len() as int) =~= v.deep_view());
    r
}

proof fn lemma_sorted_distinct_neighbours(s: Seq<Seq<char>>)
    requires
        sorted(s),
        forall|i: int| 0 < i < s.len() ==> #[trigger] s[i] != s[i - 1],
    ensures
        strictly_sorted(s),
{
    assert forall|i: int, j: int| 0 <= i < j < s.len() implies lex_less(
        #[trigger] s[i],
        #[trigger] s[j],
    ) by {
        lemma_chain(s, i, j);
    }
}

proof fn lemma_chain(s: Seq<Seq<char>>, i: int, j: int)
    requires
        sorted(s),
        forall|k: int| 0 < k < s.len() ==> #[trigger] s[k] != s[k - 1],
        0 <= i < j < s.len(),
    ensures
        lex_less(s[i], s[j]),
    decreases j - i,
{
    assert(s[j] != s[j - 1]);
    lemma_lex_total(s[j], s[j - 1]);
    if j - 1 > i {
        lemma_chain(s, i, j - 1);
        lemma_lex_transitive(s[i], s[j - 1], s[j]);
    }
}

/// A strictly sorted sequence has no duplicates.
pub proof fn lemma_strictly_sorted_no_duplicates(s: Seq<Seq<char>>)
    requires
        strictly_sorted(s),
    ensures
        s.no_duplicates(),
{
    assert forall|i: int, j: int| 0 <= i < s.len() && 0 <= j < s.len() && i != j implies s[i]
        != s[j] by {
        if i < j {
            assert(lex_less(s[i], s[j]));
            lemma_lex_irreflexive(s[i]);
        } else {
            assert(lex_less(s[j], s[i]));
            lemma_lex_irreflexive(s[j]);
        }
    }
}

proof fn lemma_no_duplicates_same_multiset(s: Seq<Seq<char>>, t: Seq<Seq<char>>)
    requires
        s.to_multiset() == t.to_multiset(),
        s.no_duplicates(),
    ensures
        t.no_duplicates(),
{
    s.lemma_multiset_has_no_duplicates();
    t.lemma_multiset_has_no_duplicates_conv();
}

/// Sorts `v` and checks that no word occurs twice: the sorted, duplicate-free
/// list, or `None` when `v` holds a word twice.
pub fn sort_unique(v: &Vec<String>) -> (r: Option<Vec<String>>)
    ensures
        r is Some <==> v.deep_view().no_duplicates(),
        r matches Some(ws) ==> ws.deep_view().to_multiset() == v.deep_view().to_multiset()
            && strictly_sorted(ws.deep_view()),
{
    let ws = sort_words(v);
    let n = ws.len();
    let mut i: usize = 1;
    while i < n
        invariant
            n == ws.len(),
            1 <= i,
            ws.deep_view().to_multiset() == v.deep_view().to_multiset(),
            forall|k: int| 0 < k < i && k < n ==> #[trigger] ws.deep_view()[k] != ws.deep_view()[k
                - 1],
        decreases n - i,
    {
        if ws[i] == ws[i - 1] {
            proof {
                assert(ws.deep_view()[i as int] == ws.deep_view()[i - 1]);
                if v.deep_view().no_duplicates() {
                    lemma_no_duplicates_same_multiset(v.deep_view(), ws.deep_view());
                }
            }
            return None;
        }
        i = i + 1;
    }
    proof {
        lemma_sorted_distinct_neighbours(ws.deep_view());
        lemma_strictly_sorted_no_duplicates(ws.deep_view());
        lemma_no_duplicates_same_multiset(ws.deep_view(), v.deep_view());
    }
    Some(ws)
}

/// A line of a word-list file as the game reads it: trimmed, then lowercased.
pub open spec fn normalized(line: Seq<char>) -> Seq<char> {
    lowercase(trimmed(line))
}

/// Normalizes one line of a word-list file.
pub fn normalize_line(line: &String) -> (r: String)
    ensures
        r@ == normalized(line@),
{
    to_lowercase(trim(line.as_str()))
}

/// Every element is a legal word.
pub open spec fn all_words(s: Seq<Seq<char>>) -> bool {
    forall|i: int| 0 <= i < s.len() ==> is_word(#[trigger] s[i])
}

/// The normalized lines of a file.
pub open spec fn normalized_lines(lines: Seq<Seq<char>>) -> Seq<Seq<char>> {
    lines.map_values(|l: Seq<char>| normalized(l))
}

/// Normalizes every line of a word-list file: the words, or `None` when a
/// normalized line is not a legal word.
pub fn normalize_list(lines: &Vec<String>) -> (r: Option<Vec<String>>)
    ensures
        r is Some <==> all_words(normalized_lines(lines.deep_view())),
        r matches Some(ws) ==> ws.deep_view() == normalized_lines(lines.deep_view()),
{
    let ghost target = normalized_lines(lines.deep_view());
    let mut ws: Vec<String> = Vec::new();
    for i in 0..lines.len()
        invariant
            target == normalized_lines(lines.deep_view()),
            target.len() == lines.len(),
            ws.deep_view() == target.take(i as int),
            all_words(target.take(i as int)),
    {
        let w = normalize_line(&lines[i]);
        assert(w@ == target[i as int]);
        if !is_legal_word(w.as_str()) {
            return None;
        }
        let ghost before = ws.deep_view();
        ws.push(w);
        assert(ws.deep_view() =~= before.push(w@));
        assert(target.take(i + 1) =~= target.take(i as int).push(w@));
    }
    assert(target.take(lines.len() as int) =~= target);
    Some(ws)
}

/// Why the word lists cannot be used.
#[derive(Clone, Copy, Debug, PartialEq, Eq, Structural)]
pub enum SetupError {
    /// The answer list holds a line that is not a word, or a word twice.
    FinalSetIllegal,
    /// The acceptable list holds a line that is not a word, or a word twice.
    AcceptableSetIllegal,
    /// Some answer word is not acceptable.
    NotSubset,
}

impl SetupError {
    /// The message the game prints for this error.
    pub fn message(&self) -> (m: &'static str)
        ensures
            m@ == match self {
                SetupError::FinalSetIllegal => "The final set is illegal!"@,
                SetupError::AcceptableSetIllegal => "The acceptable set is illegal!"@,
                SetupError::NotSubset => "The final set is not a subset of the acceptable set"@,
            },
    {
        match self {
            SetupError::FinalSetIllegal => "The final set is illegal!",
            SetupError::AcceptableSetIllegal => "The acceptable set is illegal!",
            SetupError::NotSubset => "The final set is not a subset of the acceptable set",
        }
    }
}

/// The normalized lines of a list file, when one is given.
pub open spec fn given_lines(lines: Option<&Vec<String>>) -> Option<Seq<Seq<char>>> {
    match lines {
        Some(v) => Some(normalized_lines(v.deep_view())),
        None => None,
    }
}

/// The first error that loading the two lists meets: illegal answer lines,
/// then illegal acceptable lines, then a repeated answer, then a repeated
/// acceptable word.
pub open spec fn load_error(fin: Option<Seq<Seq<char>>>, acc: Option<Seq<Seq<char>>>) -> Option<
    SetupError,
> {
    if fin matches Some(f) && !all_words(f) {
        Some(SetupError::FinalSetIllegal)
    } else if acc matches Some(a) && !all_words(a) {
        Some(SetupError::AcceptableSetIllegal)
    } else if fin matches Some(f) && !f.no_duplicates() {
        Some(SetupError::FinalSetIllegal)
    } else if acc matches Some(a) && !a.no_duplicates() {
        Some(SetupError::AcceptableSetIllegal)
    } else {
        None
    }
}

/// What a loaded list holds: the given file's words sorted without
/// duplicates, or else the built-in list as it stands.
pub open spec fn loaded_as(r: Seq<Seq<char>>, given: Option<Seq<Seq<char>>>, builtin: Seq<Seq<char>>) -> bool {
    match given {
        Some(g) => r.to_multiset() == g.to_multiset() && strictly_sorted(r),
        None => r == builtin,
    }
}

fn load_one(lines: Option<&Vec<String>>, builtin: &Vec<String>) -> (r: Option<Vec<String>>)
    ensures
        r is Some <==> (given_lines(lines) matches Some(g) ==> all_words(g)),
        r matches Some(ws) ==> match given_lines(lines) {
            Some(g) => ws.deep_view() == g,
            None => ws.deep_view() == builtin.deep_view(),
        },
{
    match lines {
        Some(v) => normalize_list(v),
        None => Some(builtin.clone()),
    }
}

/// Loads the answer list and the acceptable list, each from the lines of its
/// file when one is given, else from the built-in list. A given list is
/// normalized, checked to hold only words, sorted and checked for repeats.
pub fn load_word_lists(
    final_lines: Option<&Vec<String>>,
    builtin_final: &Vec<String>,
    acceptable_lines: Option<&Vec<String>>,
    builtin_acceptable: &Vec<String>,
) -> (r: Result<(Vec<String>, Vec<String>), SetupError>)
    ensures
        r is Err <==> load_error(given_lines(final_lines), given_lines(acceptable_lines)) is Some,
        r matches Err(e) ==> load_error(given_lines(final_lines), given_lines(acceptable_lines))
            == Some(e),
        r matches Ok((f, a)) ==> loaded_as(
            f.deep_view(),
            given_lines(final_lines),
            builtin_final.deep_view(),
        ) && loaded_as(a.deep_view(), given_lines(acceptable_lines), builtin_acceptable.deep_view()),
{
    let f0 = match load_one(final_lines, builtin_final) {
        Some(f) => f,
        None => return Err(SetupError::FinalSetIllegal),
    };
    let a0 = match load_one(acceptable_lines, builtin_acceptable) {
        Some(a) => a,
        None => return Err(SetupError::AcceptableSetIllegal),
    };
    let f1 = if final_lines.is_some() {
        match sort_unique(&f0) {
            Some(f) => f,
            None => return Err(SetupError::FinalSetIllegal),
        }
    } else {
        f0
    };
    let a1 = if acceptable_lines.is_some() {
        match sort_unique(&a0) {
            Some(a) => a,
            None => return Err(SetupError::AcceptableSetIllegal),
        }
    } else {
        a0
    };
    Ok((f1, a1))
}

/// `a` can be matched, in order, against elements of `b`.
pub open spec fn is_subsequence(a: Seq<Seq<char>>, b: Seq<Seq<char>>) -> bool
    decreases b.len(),
{
    if a.len() == 0 {
        true
    } else if b.len() == 0 {
        false
    } else if a[0] == b[0] {
        is_subsequence(a.drop_first(), b.drop_first())
    } else {
        is_subsequence(a, b.drop_first())
    }
}

/// Checks that the answer list is contained in the acceptable list by one
/// merge-like pass: every answer word must be met, in order, in the
/// acceptable list. An empty answer list never passes.
pub fn check_subset(answers: &Vec<String>, acceptable: &Vec<String>) -> (r: Result<(), SetupError>)
    requires
        answers.len() > 0 || acceptable.len() == 0,
    ensures
        r is Ok <==> answers.len() > 0 && is_subsequence(answers.deep_view(), acceptable.deep_view()),
        r matches Err(e) ==> e == SetupError::NotSubset,
{
    let ghost a = answers.deep_view();
    let ghost b = acceptable.deep_view();
    let mut is_sub = false;
    let mut acc_index: usize = 0;
    let mut ans_index: usize = 0;
    assert(a.skip(0) =~= a);
    assert(b.skip(0) =~= b);
    while acc_index < acceptable.len()
        invariant_except_break
            a == answers.deep_view(),
            b == acceptable.deep_view(),
            answers.len() > 0 || acceptable.len() == 0,
            answers.len() > 0 ==> ans_index < answers.len(),
            acc_index <= acceptable.len(),
            ans_index <= answers.len(),
            !is_sub,
            is_subsequence(a, b) == is_subsequence(a.skip(ans_index as int), b.skip(acc_index as int)),
        ensures
            is_sub <==> answers.len() > 0 && is_subsequence(a, b),
        decreases acceptable.len() - acc_index,
    {
        assert(b.skip(acc_index as int).drop_first() =~= b.skip(acc_index + 1));
        if answers[ans_index] == acceptable[acc_index] {
            assert(a.skip(ans_index as int).drop_first() =~= a.skip(ans_index + 1));
            assert(a.skip(ans_index as int)[0] == b.skip(acc_index as int)[0]);
            ans_index = ans_index + 1;
            if ans_index == answers.len() {
                assert(a.skip(ans_index as int).len() == 0);
                assert(is_subsequence(a.skip(ans_index as int), b.skip(acc_index + 1)));
                is_sub = true;
                break;
            }
        } else {
            assert(a.skip(ans_index as int)[0] != b.skip(acc_index as int)[0]);
        }
        acc_index = acc_index + 1;
    }

    if !is_sub {
        return Err(SetupError::NotSubset);
    }
    Ok(())
}

/// For two strictly sorted lists, the merge check passes exactly when every
/// answer word is an acceptable word.
pub proof fn lemma_subsequence_iff_subset(a: Seq<Seq<char>>, b: Seq<Seq<char>>)
    requires
        strictly_sorted(a),
        strictly_sorted(b),
    ensures
        is_subsequence(a, b) <==> forall|i: int| 0 <= i < a.len() ==> b.contains(#[trigger] a[i]),
    decreases b.len(),
{
    if a.len() == 0 {
    } else if b.len() == 0 {
        if is_subsequence(a, b) {
        } else {
            assert(!b.contains(a[0]));
        }
    } else {
        let a1 = a.drop_first();
        let b1 = b.drop_first();
        assert(strictly_sorted(b1)) by {
            assert forall|i: int, j: int| 0 <= i < j < b1.len() implies lex_less(
                #[trigger] b1[i],
                #[trigger] b1[j],
            ) by {
                assert(b1[i] == b[i + 1] && b1[j] == b[j + 1]);
            }
        }
        assert(strictly_sorted(a1)) by {
            assert forall|i: int, j: int| 0 <= i < j < a1.len() implies lex_less(
                #[trigger] a1[i],
                #[trigger] a1[j],
            ) by {
                assert(a1[i] == a[i + 1] && a1[j] == a[j + 1]);
            }
        }
        if a[0] == b[0] {
            lemma_subsequence_iff_subset(a1, b1);
            if forall|i: int| 0 <= i < a.len() ==> b.contains(#[trigger] a[i]) {
                assert forall|i: int| 0 <= i < a1.len() implies b1.contains(#[trigger] a1[i]) by {
                    assert(a1[i] == a[i + 1]);
                    assert(b.contains(a[i + 1]));
                    let k = choose|k: int| 0 <= k < b.len() && b[k] == a[i + 1];
                    assert(lex_less(a[0], a[i + 1]));
                    if k == 0 {
                        lemma_lex_irreflexive(a[0]);
                    }
                    assert(b1[k - 1] == b[k]);
                }
            }
            if is_subsequence(a1, b1) {
                assert forall|i: int| 0 <= i < a.len() implies b.contains(#[trigger] a[i]) by {
                    if i == 0 {
                        assert(b[0] == a[0]);
                    } else {
                        assert(a1[i - 1] == a[i]);
                        assert(b1.contains(a1[i - 1]));
                        let k = choose|k: int| 0 <= k < b1.len() && b1[k] == a1[i - 1];
                        assert(b[k + 1] == b1[k]);
                    }
                }
            }
        } else {
            lemma_subsequence_iff_subset(a, b1);
            if forall|i: int| 0 <= i < a.len() ==> b.contains(#[trigger] a[i]) {
                assert forall|i: int| 0 <= i < a.len() implies b1.contains(#[trigger] a[i]) by {
                    assert(b.contains(a[i]));
                    let k = choose|k: int| 0 <= k < b.len() && b[k] == a[i];
                    if k == 0 {
                        assert(b.contains(a[0]));
                        let k0 = choose|k0: int| 0 <= k0 < b.len() && b[k0] == a[0];
                        assert(k0 != 0);
                        assert(lex_less(b[0], b[k0]));
                        if i > 0 {
                            assert(lex_less(a[0], a[i]));
                            lemma_lex_transitive(b[0], a[0], a[i]);
                            lemma_lex_irreflexive(b[0]);
                        }
                    }
                    assert(b1[k - 1] == b[k]);
                }
            }
            if is_subsequence(a, b1) {
                assert forall|i: int| 0 <= i < a.len() implies b.contains(#[trigger] a[i]) by {
                    assert(b1.contains(a[i]));
                    let k = choose|k: int| 0 <= k < b1.len() && b1[k] == a[i];
                    assert(b[k + 1] == b1[k]);
                }
            }
        }
    }
}

/// The `--day` value names a round of the shuffled answer list: from 1 to the
/// list's length (taken as an `i32`, as the game does).
pub fn day_in_range(day: i32, answers_len: usize) -> (b: bool)
    ensures
        b == (1 <= day && day <= (answers_len as i32)),
{
    let n: i32 = #[verifier::truncate] (answers_len as i32);
    !(day < 1 || day > n)
}

proof fn lemma_letter_a_to_z(c: char)
    ensures
        is_letter(c) <==> ('a' <= c && c <= 'z'),
{
    assert(('a' as u32) == 97);
    assert(('z' as u32) == 122);
}

/// The letters are exactly `'a'` through `'z'`, and a legal word is five of
/// them.
pub proof fn lemma_letters_are_a_to_z(c: char, w: Seq<char>)
    ensures
        is_letter(c) <==> ('a' <= c && c <= 'z'),
        is_word(w) <==> (w.len() == 5 && forall|i: int|
            0 <= i < 5 ==> 'a' <= #[trigger] w[i] && w[i] <= 'z'),
{
    lemma_letter_a_to_z(c);
    assert forall|i: int| 0 <= i < w.len() implies is_letter(#[trigger] w[i]) == ('a' <= w[i]
        && w[i] <= 'z') by {
        lemma_letter_a_to_z(w[i]);
    }
}

/// `a` comes before `b` in [`lex_less`] exactly when `a` is a proper prefix
/// of `b`, or at the first position where they differ `a` has the smaller
/// character.
pub proof fn lemma_lex_less_first_difference(a: Seq<char>, b: Seq<char>)
    ensures
        lex_less(a, b) <==> ((a.len() < b.len() && a == b.take(a.len() as int)) || exists|k: int|
            0 <= k < a.len() && k < b.len() && a.take(k) == b.take(k) && (#[trigger] a[k] as u32)
                < (b[k] as u32)),
    decreases a.len(),
{
    if a.len() == 0 {
        if b.len() > 0 {
            assert(a =~= b.take(0));
        }
    } else if b.len() == 0 {
    } else {
        lemma_lex_less_first_difference(a.drop_first(), b.drop_first());
        let a1 = a.drop_first();
        let b1 = b.drop_first();
        if (a[0] as u32) < (b[0] as u32) {
            assert(a.take(0) =~= b.take(0));
        } else if a[0] == b[0] {
            // prefix case
            if a1.len() < b1.len() && a1 == b1.take(a1.len() as int) {
                assert forall|m: int| 0 <= m < a.len() implies a[m] == b.take(a.len() as int)[m] by {
                    if m > 0 {
                        assert(a[m] == a1[m - 1]);
                        assert(a1[m - 1] == b1.take(a1.len() as int)[m - 1]);
                    }
                }
                assert(a =~= b.take(a.len() as int));
            }
            if a.len() < b.len() && a == b.take(a.len() as int) {
                assert(a1 =~= b1.take(a1.len() as int));
            }
            // difference case
            if exists|k: int|
                0 <= k < a1.len() && k < b1.len() && a1.take(k) == b1.take(k) && (#[trigger] a1[k] as u32)
                    < (b1[k] as u32) {
                let k = choose|k: int|
                    0 <= k < a1.len() && k < b1.len() && a1.take(k) == b1.take(k) && (#[trigger] a1[k] as u32)
                        < (b1[k] as u32);
                assert(a.take(k + 1) =~= seq![a[0]] + a1.take(k));
                assert(b.take(k + 1) =~= seq![b[0]] + b1.take(k));
                assert(a[k + 1] == a1[k]);
            }
            if exists|k: int|
                0 <= k < a.len() && k < b.len() && a.take(k) == b.take(k) && (#[trigger] a[k] as u32)
                    < (b[k] as u32) {
                let k = choose|k: int|
                    0 <= k < a.len() && k < b.len() && a.take(k) == b.take(k) && (#[trigger] a[k] as u32)
                        < (b[k] as u32);
                assert(k > 0);
                assert(a1.take(k - 1) =~= a.take(k).drop_first());
                assert(b1.take(k - 1) =~= b.take(k).drop_first());
                assert(a1[k - 1] == a[k]);
            }
        } else {
            lemma_char_code_injective(a[0], b[0]);
            if a.len() < b.len() && a == b.take(a.len() as int) {
                assert(a[0] == b.take(a.len() as int)[0]);
            }
            if exists|k: int|
                0 <= k < a.len() && k < b.len() && a.take(k) == b.take(k) && (#[trigger] a[k] as u32)
                    < (b[k] as u32) {
                let k = choose|k: int|
                    0 <= k < a.len() && k < b.len() && a.take(k) == b.take(k) && (#[trigger] a[k] as u32)
                        < (b[k] as u32);
                if k > 0 {
                    assert(a.take(k)[0] == b.take(k)[0]);
                }
            }
        }
    }
}

} // verus!
