//! Statistics over rounds: wins, attempts, and how often each word was
//! guessed.

use vstd::prelude::*;
use crate::game::{Round, RoundStatus, SubmitResult};
use crate::words::is_word;
use crate::text::{lowercase, to_lowercase};
use crate::words::{lemma_lex_irreflexive, lemma_lex_transitive, lex_less, word_less};

verus! {

/// Sum of the counts that `e` holds for `w` among its first `n` entries.
pub open spec fn count_in(e: Seq<(String, i32)>, w: Seq<char>, n: int) -> int
    decreases n,
{
    if n <= 0 {
        0
    } else {
        count_in(e, w, n - 1) + if e[n - 1].0@ == w {
            e[n - 1].1 as int
        } else {
            0
        }
    }
}

/// Words with the number of times each was guessed.
pub struct Usage {
    /// Each guessed word once, with its count.
    pub entries: Vec<(String, i32)>,
}

/// The entries as (word, count) values.
pub open spec fn entries_view(e: Seq<(String, i32)>) -> Seq<(Seq<char>, i32)> {
    e.map_values(|p: (String, i32)| (p.0@, p.1))
}

proof fn lemma_count_prefix(e: Seq<(String, i32)>, f: Seq<(String, i32)>, w: Seq<char>, n: int)
    requires
        0 <= n <= e.len(),
        n <= f.len(),
        forall|i: int| 0 <= i < n ==> e[i] == f[i],
    ensures
        count_in(e, w, n) == count_in(f, w, n),
    decreases n,
{
    if n > 0 {
        lemma_count_prefix(e, f, w, n - 1);
    }
}

proof fn lemma_count_absent(e: Seq<(String, i32)>, w: Seq<char>, n: int)
    requires
        0 <= n <= e.len(),
        forall|i: int| 0 <= i < n ==> e[i].0@ != w,
    ensures
        count_in(e, w, n) == 0,
    decreases n,
{
    if n > 0 {
        lemma_count_absent(e, w, n - 1);
    }
}

proof fn lemma_count_unique(e: Seq<(String, i32)>, w: Seq<char>, k: int, n: int)
    requires
        0 <= k < n <= e.len(),
        e[k].0@ == w,
        forall|i: int| 0 <= i < n && i != k ==> e[i].0@ != w,
    ensures
        count_in(e, w, n) == e[k].1,
    decreases n,
{
    if n - 1 > k {
        lemma_count_unique(e, w, k, n - 1);
    } else {
        lemma_count_absent(e, w, k);
    }
}

impl Usage {
    /// Each word appears in one entry, with a positive count.
    pub open spec fn wf(&self) -> bool {
        &&& forall|i: int, j: int|
            0 <= i < j < self.entries.len() ==> #[trigger] self.entries@[i].0@
                != #[trigger] self.entries@[j].0@
        &&& forall|i: int| 0 <= i < self.entries.len() ==> #[trigger] self.entries@[i].1 >= 1
    }

    /// Times `w` was guessed.
    pub open spec fn count(&self, w: Seq<char>) -> int {
        count_in(self.entries@, w, self.entries.len() as int)
    }

    /// No word guessed yet.
    pub fn new() -> (u: Usage)
        ensures
            u.wf(),
            forall|w: Seq<char>| #[trigger] u.count(w) == 0,
    {
        Usage { entries: Vec::new() }
    }

    /// Times `w` was guessed.
    pub fn count_of(&self, w: &String) -> (c: i32)
        requires
            self.wf(),
        ensures
            c == self.count(w@),
    {
        let n = self.entries.len();
        for i in 0..n
            invariant
                n == self.entries.len(),
                self.wf(),
                forall|k: int| 0 <= k < i ==> self.entries@[k].0@ != w@,
        {
            if self.entries[i].0 == *w {
                proof {
                    lemma_count_unique(self.entries@, w@, i as int, n as int);
                }
                return self.entries[i].1;
            }
        }
        proof {
            lemma_count_absent(self.entries@, w@, n as int);
        }
        0
    }

    /// Counts one more guess of `w`.
    pub fn record(&mut self, w: &String)
        requires
            old(self).wf(),
            old(self).count(w@) < i32::MAX,
        ensures
            final(self).wf(),
            forall|x: Seq<char>|
                #[trigger] final(self).count(x) == old(self).count(x) + if x == w@ {
                    1int
                } else {
                    0int
                },
    {
        let n = self.entries.len();
        let ghost e0 = self.entries@;
        for i in 0..n
            invariant
                n == self.entries.len(),
                self.entries@ == e0,
                e0 == old(self).entries@,
                self.wf(),
                self.count(w@) < i32::MAX,
                forall|k: int| 0 <= k < i ==> self.entries@[k].0@ != w@,
        {
            if self.entries[i].0 == *w {
                let c = self.entries[i].1;
                proof {
                    lemma_count_unique(e0, w@, i as int, n as int);
                }
                let key = self.entries[i].0.clone();
                self.entries.set(i, (key, c + 1));
                proof {
                    let e1 = self.entries@;
                    assert forall|k: int| 0 <= k < n implies #[trigger] e1[k].0@ == e0[k].0@ && e1[k].1 >= 1 by {
                    }
                    assert(self.wf());
                    assert forall|x: Seq<char>| #[trigger] count_in(e1, x, n as int) == count_in(
                        e0,
                        x,
                        n as int,
                    ) + if x == w@ {
                        1int
                    } else {
                        0int
                    } by {
                        if x == w@ {
                            lemma_count_unique(e1, x, i as int, n as int);
                        } else {
                            lemma_count_split_at(e0, e1, x, i as int, n as int);
                        }
                    }
                }
                return;
            }
        }
        proof {
            lemma_count_absent(e0, w@, n as int);
        }
        self.entries.push((w.clone(), 1));
        proof {
            let e1 = self.entries@;
            assert forall|x: Seq<char>| #[trigger] count_in(e1, x, n + 1) == count_in(
                e0,
                x,
                n as int,
            ) + if x == w@ {
                1int
            } else {
                0int
            } by {
                lemma_count_prefix(e1, e0, x, n as int);
            }
        }
    }

    /// The entries ordered for display: most guessed first, ties in
    /// alphabetical order.
    pub fn ranked(&self) -> (r: Vec<(String, i32)>)
        requires
            self.wf(),
        ensures
            entries_view(r@).to_multiset() == entries_view(self.entries@).to_multiset(),
            ranked_order(entries_view(r@)),
    {
        let src = &self.entries;
        let ghost sv = entries_view(src@);
        let mut r: Vec<(String, i32)> = Vec::new();
        assert(entries_view(r@) =~= sv.take(0));
        for i in 0..src.len()
            invariant
                sv == entries_view(src@),
                entries_view(r@).to_multiset() == sv.take(i as int).to_multiset(),
                ranked_order(entries_view(r@)),
        {
            let e = (src[i].0.clone(), src[i].1);
            let mut p: usize = 0;
            while p < r.len() && !ranks_before(&e, &r[p])
                invariant
                    p <= r.len(),
                    forall|q: int|
                        0 <= q < p ==> !rank_less((e.0@, e.1), #[trigger] entries_view(r@)[q]),
                decreases r.len() - p,
            {
                p = p + 1;
            }
            let ghost old_r = entries_view(r@);
            let ghost ev = (e.0@, e.1);
            r.insert(p, e);
            assert(entries_view(r@) =~= old_r.insert(p as int, ev));
            proof {
                vstd::seq_lib::to_multiset_insert(old_r, p as int, ev);
                assert(sv[i as int] == ev);
                assert(sv.take(i + 1) =~= sv.take(i as int).push(ev));
                vstd::seq_lib::to_multiset_build(sv.take(i as int), ev);
                let s = entries_view(r@);
                assert forall|a: int, b: int| 0 <= a < b < s.len() implies !rank_less(
                    #[trigger] s[b],
                    #[trigger] s[a],
                ) by {
                    if a < p && b == p {
                    } else if a == p && b > p {
                        lemma_rank_irreflexive(old_r[p as int]);
                        if rank_less(s[b], ev) {
                            lemma_rank_transitive(s[b], ev, old_r[p as int]);
                            assert(!rank_less(old_r[b - 1], old_r[p as int]));
                        }
                    } else {
                        let a0 = if a < p {
                            a
                        } else {
                            a - 1
                        };
                        let b0 = if b < p {
                            b
                        } else {
                            b - 1
                        };
                        assert(s[a] == old_r[a0]);
                        assert(s[b] == old_r[b0]);
                    }
                }
            }
        }
        assert(sv.take(src.len() as int) =~= sv);
        r
    }
}

/// Display order: a higher count first, then the alphabetically smaller word.
pub open spec fn rank_less(a: (Seq<char>, i32), b: (Seq<char>, i32)) -> bool {
    a.1 > b.1 || (a.1 == b.1 && lex_less(a.0, b.0))
}

/// No entry is ranked before an earlier one.
pub open spec fn ranked_order(s: Seq<(Seq<char>, i32)>) -> bool {
    forall|i: int, j: int| 0 <= i < j < s.len() ==> !rank_less(#[trigger] s[j], #[trigger] s[i])
}

proof fn lemma_rank_irreflexive(a: (Seq<char>, i32))
    ensures
        !rank_less(a, a),
{
    lemma_lex_irreflexive(a.0);
}

proof fn lemma_rank_transitive(a: (Seq<char>, i32), b: (Seq<char>, i32), c: (Seq<char>, i32))
    requires
        rank_less(a, b),
        rank_less(b, c),
    ensures
        rank_less(a, c),
{
    if a.1 == b.1 && b.1 == c.1 {
        lemma_lex_transitive(a.0, b.0, c.0);
    }
}

fn ranks_before(a: &(String, i32), b: &(String, i32)) -> (r: bool)
    ensures
        r == rank_less((a.0@, a.1), (b.0@, b.1)),
{
    a.1 > b.1 || (a.1 == b.1 && word_less(&a.0, &b.0))
}

proof fn lemma_count_split_at(e0: Seq<(String, i32)>, e1: Seq<(String, i32)>, x: Seq<char>, i: int, n: int)
    requires
        0 <= i < n <= e0.len(),
        e1.len() == e0.len(),
        forall|k: int| 0 <= k < n && k != i ==> e1[k] == e0[k],
        e1[i].0@ == e0[i].0@,
        e0[i].0@ != x,
    ensures
        count_in(e1, x, n) == count_in(e0, x, n),
    decreases n,
{
    if n - 1 > i {
        lemma_count_split_at(e0, e1, x, i, n - 1);
    } else {
        lemma_count_prefix(e1, e0, x, i);
    }
}

/// One finished round as the state file keeps it.
pub struct GameRecord {
    /// The answer.
    pub answer: String,
    /// The accepted guesses, in order.
    pub guesses: Vec<String>,
}

/// A round counts as won when its last guess is its answer.
pub open spec fn is_win(r: GameRecord) -> bool {
    r.guesses@.len() > 0 && r.guesses@.last()@ == r.answer@
}

/// Won rounds among the first `n` records.
pub open spec fn wins_upto(rs: Seq<GameRecord>, n: int) -> int
    decreases n,
{
    if n <= 0 {
        0
    } else {
        wins_upto(rs, n - 1) + if is_win(rs[n - 1]) {
            1int
        } else {
            0int
        }
    }
}

/// Guesses spent in the won rounds among the first `n` records.
pub open spec fn win_tries_upto(rs: Seq<GameRecord>, n: int) -> int
    decreases n,
{
    if n <= 0 {
        0
    } else {
        win_tries_upto(rs, n - 1) + if is_win(rs[n - 1]) {
            rs[n - 1].guesses@.len() as int
        } else {
            0int
        }
    }
}

/// All guesses of the first `n` records.
pub open spec fn guesses_upto(rs: Seq<GameRecord>, n: int) -> int
    decreases n,
{
    if n <= 0 {
        0
    } else {
        guesses_upto(rs, n - 1) + rs[n - 1].guesses@.len()
    }
}

/// Guesses among the first `m` of `gs` that lowercase to `x`.
pub open spec fn word_occ(gs: Seq<String>, x: Seq<char>, m: int) -> int
    decreases m,
{
    if m <= 0 {
        0
    } else {
        word_occ(gs, x, m - 1) + if lowercase(gs[m - 1]@) == x {
            1int
        } else {
            0int
        }
    }
}

/// Guesses of the first `n` records that lowercase to `x`.
pub open spec fn occurrences_upto(rs: Seq<GameRecord>, x: Seq<char>, n: int) -> int
    decreases n,
{
    if n <= 0 {
        0
    } else {
        occurrences_upto(rs, x, n - 1) + word_occ(rs[n - 1].guesses@, x, rs[n - 1].guesses@.len() as int)
    }
}

proof fn lemma_word_occ_bound(gs: Seq<String>, x: Seq<char>, m: int)
    requires
        0 <= m,
    ensures
        0 <= word_occ(gs, x, m) <= m,
    decreases m,
{
    if m > 0 {
        lemma_word_occ_bound(gs, x, m - 1);
    }
}

proof fn lemma_occurrences_bound(rs: Seq<GameRecord>, x: Seq<char>, n: int)
    requires
        0 <= n <= rs.len(),
    ensures
        0 <= occurrences_upto(rs, x, n) <= guesses_upto(rs, n),
        0 <= win_tries_upto(rs, n) <= guesses_upto(rs, n),
        0 <= wins_upto(rs, n) <= n,
    decreases n,
{
    if n > 0 {
        lemma_occurrences_bound(rs, x, n - 1);
        lemma_word_occ_bound(rs[n - 1].guesses@, x, rs[n - 1].guesses@.len() as int);
    }
}

proof fn lemma_guesses_monotone(rs: Seq<GameRecord>, m: int, n: int)
    requires
        0 <= m <= n <= rs.len(),
    ensures
        guesses_upto(rs, m) <= guesses_upto(rs, n),
        guesses_upto(rs, m) + (if m < n { rs[m].guesses@.len() as int } else { 0int }) <= guesses_upto(rs, n),
    decreases n - m,
{
    if m < n {
        lemma_guesses_monotone(rs, m, n - 1);
        if m < n - 1 {
            lemma_guesses_monotone(rs, m + 1, n);
        }
    }
}

proof fn lemma_guesses_at_least_rounds(rs: Seq<GameRecord>, n: int)
    requires
        0 <= n <= rs.len(),
        forall|i: int| 0 <= i < rs.len() ==> (#[trigger] rs[i]).guesses.len() > 0,
    ensures
        guesses_upto(rs, n) >= n,
    decreases n,
{
    if n > 0 {
        lemma_guesses_at_least_rounds(rs, n - 1);
        assert(rs[n - 1].guesses.len() > 0);
    }
}

/// Everything the game counts across rounds.
pub struct Session {
    /// Rounds played, including those loaded from the state file.
    pub total_rounds: i64,
    /// Rounds won.
    pub victories: i64,
    /// Guesses spent in won rounds.
    pub victory_tries: usize,
    /// How often each word was guessed.
    pub usage: Usage,
    /// Every round, loaded or played.
    pub records: Vec<GameRecord>,
}

impl Session {
    /// Nothing played yet.
    pub fn new() -> (s: Session)
        ensures
            s.usage.wf(),
            s.total_rounds == 0,
            s.victories == 0,
            s.victory_tries == 0,
            s.records.len() == 0,
            forall|w: Seq<char>| #[trigger] s.usage.count(w) == 0,
    {
        Session {
            total_rounds: 0,
            victories: 0,
            victory_tries: 0,
            usage: Usage::new(),
            records: Vec::new(),
        }
    }

    /// The session that a state file describes: its round count and its
    /// rounds. A round is won when its last guess equals its answer; every
    /// guess counts, lowercased, towards word usage.
    pub fn from_state(total_rounds: i64, records: Vec<GameRecord>) -> (s: Session)
        requires
            forall|i: int| 0 <= i < records.len() ==> (#[trigger] records@[i]).guesses.len() > 0,
            guesses_upto(records@, records.len() as int) < i32::MAX,
        ensures
            s.usage.wf(),
            s.total_rounds == total_rounds,
            s.victories == wins_upto(records@, records.len() as int),
            s.victory_tries == win_tries_upto(records@, records.len() as int),
            forall|x: Seq<char>|
                #[trigger] s.usage.count(x) == occurrences_upto(records@, x, records.len() as int),
            s.records@ == records@,
    {
        let n = records.len();
        let ghost rs = records@;
        let mut victories: i64 = 0;
        let mut tries: usize = 0;
        let mut usage = Usage::new();
        for i in 0..n
            invariant
                n == records.len(),
                rs == records@,
                forall|i: int| 0 <= i < records.len() ==> (#[trigger] records@[i]).guesses.len() > 0,
                guesses_upto(rs, n as int) < i32::MAX,
                usage.wf(),
                victories == wins_upto(rs, i as int),
                tries == win_tries_upto(rs, i as int),
                forall|x: Seq<char>| #[trigger] usage.count(x) == occurrences_upto(rs, x, i as int),
        {
            let rec = &records[i];
            let m = rec.guesses.len();
            proof {
                lemma_occurrences_bound(rs, rec.answer@, i as int);
                lemma_guesses_monotone(rs, i as int, n as int);
                lemma_guesses_at_least_rounds(rs, n as int);
                assert(rs[i as int].guesses@.len() > 0);
            }
            if rec.guesses[m - 1] == rec.answer {
                victories = victories + 1;
                tries = tries + m;
            }
            for j in 0..m
                invariant
                    n == records.len(),
                    rs == records@,
                    i < n,
                    rec == &records@[i as int],
                    m == rec.guesses.len(),
                    guesses_upto(rs, i as int) + m <= guesses_upto(rs, n as int),
                    guesses_upto(rs, n as int) < i32::MAX,
                    usage.wf(),
                    forall|x: Seq<char>|
                        #[trigger] usage.count(x) == occurrences_upto(rs, x, i as int) + word_occ(
                            rec.guesses@,
                            x,
                            j as int,
                        ),
            {
                let lw = to_lowercase(rec.guesses[j].as_str());
                proof {
                    lemma_occurrences_bound(rs, lw@, i as int);
                    lemma_word_occ_bound(rec.guesses@, lw@, j as int);
                }
                usage.record(&lw);
            }
        }
        Session { total_rounds, victories, victory_tries: tries, usage, records }
    }

    /// Plays one guess of `round` and, when it is accepted, counts it
    /// towards word usage.
    pub fn guess(&mut self, round: &mut Round, word: &String, acceptable: &Vec<String>, difficult: bool) -> (r: SubmitResult)
        requires
            old(self).usage.wf(),
            old(self).usage.count(word@) < i32::MAX,
            old(round).wf(),
            old(round).status == RoundStatus::Playing,
            forall|i: int| 0 <= i < acceptable.len() ==> is_word(#[trigger] acceptable@[i]@),
        ensures
            final(self).usage.wf(),
            final(round).wf(),
            final(self).total_rounds == old(self).total_rounds,
            final(self).victories == old(self).victories,
            final(self).victory_tries == old(self).victory_tries,
            final(self).records@ == old(self).records@,
            ({
                let n = old(round).feedback.len();
                r == SubmitResult::Invalid <==> !acceptable.deep_view().contains(word@) || (difficult
                    && n > 0 && !crate::hard_mode::hard_mode_ok(
                    old(round).feedback@[n - 1].0@,
                    old(round).feedback@[n - 1].1@,
                    word@,
                ))
            }),
            r == SubmitResult::Invalid ==> *final(round) == *old(round) && forall|x: Seq<char>|
                #[trigger] final(self).usage.count(x) == old(self).usage.count(x),
            r == SubmitResult::Accepted ==> final(round).guesses.deep_view() == old(round).guesses.deep_view().push(word@)
                && forall|x: Seq<char>|
                #[trigger] final(self).usage.count(x) == old(self).usage.count(x) + if x == word@ {
                    1int
                } else {
                    0int
                },
    {
        let r = round.submit(word, acceptable, difficult);
        if r == SubmitResult::Accepted {
            self.usage.record(word);
        }
        r
    }

    /// Closes a finished round: one more round played, a win adds its guesses
    /// to the attempts, and the round is kept as a record.
    pub fn finish_round(&mut self, round: &Round)
        requires
            round.wf(),
            round.status != RoundStatus::Playing,
            old(self).total_rounds < i64::MAX,
            old(self).victories < i64::MAX,
            old(self).victory_tries <= usize::MAX - 6,
        ensures
            final(self).total_rounds == old(self).total_rounds + 1,
            final(self).victories == old(self).victories + if round.status == RoundStatus::Won {
                1int
            } else {
                0int
            },
            final(self).victory_tries == old(self).victory_tries + if round.status
                == RoundStatus::Won {
                round.guesses.len() as int
            } else {
                0int
            },
            final(self).usage == old(self).usage,
            final(self).records.len() == old(self).records.len() + 1,
            final(self).records@.drop_last() == old(self).records@,
            final(self).records@.last().answer@ == round.answer@,
            final(self).records@.last().guesses.deep_view() == round.guesses.deep_view(),
    {
        self.total_rounds = self.total_rounds + 1;
        if round.status == RoundStatus::Won {
            self.victories = self.victories + 1;
            self.victory_tries = self.victory_tries + round.guesses.len();
        }
        let rec = GameRecord { answer: round.answer.clone(), guesses: round.guesses.clone() };
        let ghost before = self.records@;
        self.records.push(rec);
        assert(self.records@.drop_last() =~= before);
        assert(self.records@.last().guesses.deep_view() =~= round.guesses.deep_view());
    }
}

/// The display order puts higher counts first, and among equal counts the
/// alphabetically smaller word (compared as a whole) first.
pub proof fn lemma_rank_law(a: (Seq<char>, i32), b: (Seq<char>, i32))
    ensures
        a.1 > b.1 ==> rank_less(a, b),
        a.1 < b.1 ==> !rank_less(a, b),
        a.1 == b.1 ==> (rank_less(a, b) <==> lex_less(a.0, b.0)),
{
}

/// In a list in display order, counts never rise, and two words with the same
/// count stand in alphabetical order.
pub proof fn lemma_ranked_list(s: Seq<(Seq<char>, i32)>, i: int, j: int)
    requires
        ranked_order(s),
        0 <= i < j < s.len(),
    ensures
        s[i].1 >= s[j].1,
        s[i].1 == s[j].1 ==> !lex_less(s[j].0, s[i].0),
{
    assert(!rank_less(s[j], s[i]));
}

/// Loaded statistics are consistent: there are no more won rounds than
/// records, each won round took at least one guess, and the guesses of won
/// rounds are among all guesses.
pub proof fn lemma_record_stats_law(rs: Seq<GameRecord>)
    ensures
        0 <= wins_upto(rs, rs.len() as int) <= rs.len(),
        wins_upto(rs, rs.len() as int) <= win_tries_upto(rs, rs.len() as int),
        win_tries_upto(rs, rs.len() as int) <= guesses_upto(rs, rs.len() as int),
{
    lemma_occurrences_bound(rs, Seq::empty(), rs.len() as int);
    lemma_wins_le_tries(rs, rs.len() as int);
}

proof fn lemma_wins_le_tries(rs: Seq<GameRecord>, n: int)
    requires
        0 <= n <= rs.len(),
    ensures
        wins_upto(rs, n) <= win_tries_upto(rs, n),
    decreases n,
{
    if n > 0 {
        lemma_wins_le_tries(rs, n - 1);
    }
}

} // verus!
