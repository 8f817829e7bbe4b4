//! The rounds of the search.
//!
//! In each round several runs start from the best bank so far, each on its own. When all are
//! back, the bank with the strictly lowest error among them and the best so far becomes the
//! new best. The search ends when that error has come down to a limit, or after a fixed
//! number of rounds; otherwise the steps of the runs are made smaller and the next round
//! begins.
use crate::filter::Filter;
use vstd::prelude::*;

verus! {

/// The error of a bank, as far as it can be compared.
#[derive(Clone, Copy, Debug, PartialEq, Eq, Structural)]
pub enum Score {
    /// The error is a number; of two errors the smaller has the smaller rank.
    Known(u64),
    /// The error is no number. It is neither below nor above any other.
    Unknown,
}

/// The bank that a round selects.
#[derive(Clone, Copy, Debug, PartialEq, Eq, Structural)]
pub enum Choice {
    /// The best bank so far stays.
    Previous,
    /// The result of the run with this index replaces it.
    Worker(usize),
}

/// What the caller does after a round.
#[derive(Clone, Copy, Debug, PartialEq, Eq, Structural)]
pub struct Outcome {
    /// The bank that is the best from now on.
    pub choice: Choice,
    /// Whether the steps of the runs are made smaller.
    pub shrink: bool,
}

/// Error `a` is strictly lower than error `b`.
pub open spec fn below(a: Score, b: Score) -> bool {
    match (a, b) {
        (Score::Known(x), Score::Known(y)) => x < y,
        _ => false,
    }
}

/// Error `a` is lower than error `b` or equal to it.
pub open spec fn reaches(a: Score, b: Score) -> bool {
    match (a, b) {
        (Score::Known(x), Score::Known(y)) => x <= y,
        _ => false,
    }
}

/// Error `a` is error `b` or strictly lower.
pub open spec fn not_above(a: Score, b: Score) -> bool {
    a == b || below(a, b)
}

/// The error of the bank that a choice names.
pub open spec fn score_of(previous: Score, results: Seq<Score>, choice: Choice) -> Score {
    match choice {
        Choice::Previous => previous,
        Choice::Worker(i) => results[i as int],
    }
}

/// The bank selected from the best so far and the results of a round, taken in their order:
/// a result replaces the best only where its error is strictly lower.
pub open spec fn selected(previous: Score, results: Seq<Score>) -> Choice
    decreases results.len(),
{
    if results.len() == 0 {
        Choice::Previous
    } else {
        let earlier = selected(previous, results.drop_last());
        if below(results.last(), score_of(previous, results.drop_last(), earlier)) {
            Choice::Worker((results.len() - 1) as usize)
        } else {
            earlier
        }
    }
}

/// What a selection means: the bank selected has an error that no result is strictly below;
/// a result is selected only where it is strictly below the best so far and strictly below
/// every result before it.
pub proof fn lemma_selected(previous: Score, results: Seq<Score>)
    requires
        results.len() <= usize::MAX,
    ensures
        match selected(previous, results) {
            Choice::Previous => forall|j: int|
                0 <= j < results.len() ==> !below(#[trigger] results[j], previous),
            Choice::Worker(i) => {
                &&& i < results.len()
                &&& below(results[i as int], previous)
                &&& forall|j: int|
                    0 <= j < i ==> below(results[i as int], #[trigger] results[j]) || results[j]
                        == Score::Unknown
                &&& forall|j: int|
                    i < j < results.len() ==> !below(#[trigger] results[j], results[i as int])
            },
        },
        not_above(score_of(previous, results, selected(previous, results)), previous),
    decreases results.len(),
{
    if results.len() > 0 {
        let front = results.drop_last();
        lemma_selected(previous, front);
        let earlier = selected(previous, front);
        assert forall|j: int| 0 <= j < front.len() implies front[j] == results[j] by {}
        match earlier {
            Choice::Previous => {
                assert forall|j: int| 0 <= j < front.len() implies !below(
                    #[trigger] results[j],
                    previous,
                ) by {
                    assert(!below(front[j], previous));
                }
            },
            Choice::Worker(i) => {
                assert forall|j: int| 0 <= j < i implies below(
                    results[i as int],
                    #[trigger] results[j],
                ) || results[j] == Score::Unknown by {
                    assert(below(front[i as int], front[j]) || front[j] == Score::Unknown);
                }
                assert forall|j: int| i < j < front.len() implies !below(
                    #[trigger] results[j],
                    results[i as int],
                ) by {
                    assert(!below(front[j], front[i as int]));
                }
            },
        }
        if below(results.last(), score_of(previous, front, earlier)) {
            let last = results.len() - 1;
            assert forall|j: int| 0 <= j < last implies below(
                results[last],
                #[trigger] results[j],
            ) || results[j] == Score::Unknown by {
                match earlier {
                    Choice::Previous => {
                        assert(!below(results[j], previous));
                    },
                    Choice::Worker(i) => {
                        if j < i {
                            assert(below(results[i as int], results[j]) || results[j]
                                == Score::Unknown);
                        } else if j > i {
                            assert(!below(results[j], results[i as int]));
                        }
                    },
                }
            }
        }
    }
}

/// Strictly lower error: decided on the ranks.
pub fn is_below(a: Score, b: Score) -> (r: bool)
    ensures
        r == below(a, b),
{
    match (a, b) {
        (Score::Known(x), Score::Known(y)) => x < y,
        _ => false,
    }
}

/// Lower or equal error: decided on the ranks.
pub fn does_reach(a: Score, b: Score) -> (r: bool)
    ensures
        r == reaches(a, b),
{
    match (a, b) {
        (Score::Known(x), Score::Known(y)) => x <= y,
        _ => false,
    }
}

/// Selects the best bank after a round: the result with the strictly lowest error, if it is
/// strictly lower than that of the best so far. Of equal errors the one met first stays.
pub fn select(previous: Score, results: &Vec<Score>) -> (c: Choice)
    ensures
        c == selected(previous, results@),
{
    let mut choice: Choice = Choice::Previous;
    let mut best: Score = previous;
    let mut i: usize = 0;
    while i < results.len()
        invariant
            i <= results.len(),
            choice == selected(previous, results@.take(i as int)),
            best == score_of(previous, results@.take(i as int), choice),
        decreases results.len() - i,
    {
        proof {
            let upto = results@.take(i + 1);
            assert(upto.drop_last() == results@.take(i as int));
            assert(upto.last() == results@[i as int]);
            lemma_selected(previous, results@.take(i as int));
        }
        if is_below(results[i], best) {
            choice = Choice::Worker(i);
            best = results[i];
        }
        i = i + 1;
    }
    proof {
        assert(results@.take(i as int) == results@);
    }
    choice
}

/// The result of one run: the bank it ended with and the error of that bank.
#[derive(Debug, PartialEq, Eq)]
pub struct Fitted {
    pub bank: Vec<Filter>,
    pub score: Score,
}

/// The errors of the results, in the order of the runs.
pub open spec fn scores(results: Seq<Fitted>) -> Seq<Score> {
    results.map_values(|f: Fitted| f.score)
}

/// Where the search stands.
pub struct Search {
    /// The number of rounds after which the search ends at the latest.
    pub rounds: nat,
    /// The number of rounds that lie behind.
    pub round: nat,
    /// The best bank so far.
    pub bank: Seq<Filter>,
    /// The error of the best bank so far.
    pub best: Score,
    /// The error at which the search ends early.
    pub limit: Score,
    /// How often the steps of the runs were made smaller.
    pub shrinks: nat,
    /// The error has come down to the limit.
    pub stopped: bool,
}

impl Search {
    /// A search before its first round.
    pub open spec fn start(rounds: nat, limit: Score, bank: Seq<Filter>, initial: Score) -> Search {
        Search { rounds, round: 0, bank, best: initial, limit, shrinks: 0, stopped: false }
    }

    /// No round is due any more.
    pub open spec fn finished(self) -> bool {
        self.stopped || self.round >= self.rounds
    }

    /// The search has made no more rounds than it may, and has shrunk the steps at most once
    /// per round.
    pub open spec fn valid(self) -> bool {
        self.shrinks <= self.round <= self.rounds
    }

    /// The choice of the round that brought these results.
    pub open spec fn choice(self, results: Seq<Fitted>) -> Choice {
        if self.finished() {
            Choice::Previous
        } else {
            selected(self.best, scores(results))
        }
    }

    /// The search after the round that brought these results. The best bank is selected
    /// first, and a result that is selected replaces the bank as a whole. Then the search
    /// stops if the error of the best bank reaches the limit; if not, the steps shrink.
    pub open spec fn close(self, results: Seq<Fitted>) -> Search {
        if self.finished() {
            self
        } else {
            let choice = selected(self.best, scores(results));
            let best = score_of(self.best, scores(results), choice);
            let bank = match choice {
                Choice::Previous => self.bank,
                Choice::Worker(i) => results[i as int].bank@,
            };
            if reaches(best, self.limit) {
                Search { round: self.round + 1, bank, best, stopped: true, ..self }
            } else {
                Search { round: self.round + 1, bank, best, shrinks: self.shrinks + 1, ..self }
            }
        }
    }

    /// The search after several rounds, given the results of each.
    pub open spec fn after(self, rounds: Seq<Seq<Fitted>>) -> Search
        decreases rounds.len(),
    {
        if rounds.len() == 0 {
            self
        } else {
            self.after(rounds.drop_last()).close(rounds.last())
        }
    }
}

/// A round never leaves the search with a higher error than it found: the error of the best
/// bank stays, or becomes strictly lower.
pub proof fn lemma_round_never_rises(search: Search, results: Seq<Fitted>)
    requires
        results.len() <= usize::MAX,
    ensures
        not_above(search.close(results).best, search.best),
{
    lemma_selected(search.best, scores(results));
}

/// Over any number of rounds the error of the best bank never rises: after all of them it is
/// what it was after the first `k`, or strictly lower.
pub proof fn lemma_best_never_rises(search: Search, rounds: Seq<Seq<Fitted>>, k: int)
    requires
        0 <= k <= rounds.len(),
        forall|r: int| 0 <= r < rounds.len() ==> (#[trigger] rounds[r]).len() <= usize::MAX,
    ensures
        not_above(search.after(rounds).best, search.after(rounds.take(k)).best),
    decreases rounds.len(),
{
    if k == rounds.len() {
        assert(rounds.take(k) == rounds);
    } else {
        let front = rounds.drop_last();
        assert(front.take(k) == rounds.take(k));
        assert forall|r: int| 0 <= r < front.len() implies (#[trigger] front[r]).len()
            <= usize::MAX by {
            assert(front[r] == rounds[r]);
        }
        lemma_best_never_rises(search, front, k);
        lemma_round_never_rises(search.after(front), rounds.last());
    }
}

/// The coordinator of a search: it counts the rounds and keeps the best bank with its error.
pub struct Coordinator {
    rounds: usize,
    round: usize,
    bank: Vec<Filter>,
    best: Score,
    limit: Score,
    shrinks: usize,
    stopped: bool,
}

impl View for Coordinator {
    type V = Search;

    closed spec fn view(&self) -> Search {
        Search {
            rounds: self.rounds as nat,
            round: self.round as nat,
            bank: self.bank@,
            best: self.best,
            limit: self.limit,
            shrinks: self.shrinks as nat,
            stopped: self.stopped,
        }
    }
}

impl Coordinator {
    /// A search of at most `rounds` rounds that ends early once the error reaches `limit`. It
    /// starts from `bank`, which has the error `initial`.
    pub fn new(rounds: usize, limit: Score, bank: Vec<Filter>, initial: Score) -> (c: Coordinator)
        ensures
            c@ == Search::start(rounds as nat, limit, bank@, initial),
            c@.valid(),
    {
        Coordinator { rounds, round: 0, bank, best: initial, limit, shrinks: 0, stopped: false }
    }

    /// Whether the search is over.
    pub fn finished(&self) -> (r: bool)
        ensures
            r == self@.finished(),
    {
        self.stopped || self.round >= self.rounds
    }

    /// The best bank so far.
    pub fn bank(&self) -> (b: &Vec<Filter>)
        ensures
            b@ == self@.bank,
    {
        &self.bank
    }

    /// The error of the best bank so far.
    pub fn best(&self) -> (r: Score)
        ensures
            r == self@.best,
    {
        self.best
    }

    /// The number of rounds that lie behind.
    pub fn round(&self) -> (r: usize)
        ensures
            r == self@.round,
    {
        self.round
    }

    /// How often the steps of the runs were made smaller.
    pub fn shrinks(&self) -> (r: usize)
        ensures
            r == self@.shrinks,
    {
        self.shrinks
    }

    /// Closes a round with the results of its runs, in the order of the runs. Says which
    /// bank is the best from now on and whether the steps shrink. Once the search is over,
    /// nothing changes any more.
    pub fn close_round(&mut self, results: Vec<Fitted>) -> (o: Outcome)
        requires
            old(self)@.valid(),
        ensures
            final(self)@ == old(self)@.close(results@),
            final(self)@.valid(),
            o.choice == old(self)@.choice(results@),
            o.shrink == (final(self)@.shrinks > old(self)@.shrinks),
            not_above(final(self)@.best, old(self)@.best),
    {
        if self.finished() {
            return Outcome { choice: Choice::Previous, shrink: false };
        }
        let n: usize = results.len();
        let mut errors: Vec<Score> = Vec::new();
        let mut i: usize = 0;
        while i < n
            invariant
                n == results.len(),
                i <= n,
                errors@ == scores(results@.take(i as int)),
            decreases n - i,
        {
            errors.push(results[i].score);
            proof {
                assert(results@.take(i + 1) == results@.take(i as int).push(results@[i as int]));
                assert(errors@ =~= scores(results@.take(i + 1)));
            }
            i = i + 1;
        }
        proof {
            assert(results@.take(n as int) == results@);
            lemma_selected(self.best, scores(results@));
        }
        let choice: Choice = select(self.best, &errors);
        match choice {
            Choice::Previous => {},
            Choice::Worker(i) => {
                let mut results = results;
                let fitted: Fitted = results.swap_remove(i);
                self.best = fitted.score;
                self.bank = fitted.bank;
            },
        }
        self.round = self.round + 1;
        if does_reach(self.best, self.limit) {
            self.stopped = true;
            Outcome { choice, shrink: false }
        } else {
            self.shrinks = self.shrinks + 1;
            Outcome { choice, shrink: true }
        }
    }

    /// Ends the search and hands out its best bank.
    pub fn finish(self) -> (bank: Vec<Filter>)
        ensures
            bank@ == self@.bank,
    {
        self.bank
    }
}

} // verus!
