//! One annealing run over a filter bank.
//!
//! A run goes through a fixed number of iterations. In each it visits every slot of the bank
//! in turn. For a slot it asks for one candidate filter, and then tries the candidate's centre,
//! its quality and its gain, one at a time. Each trial is accepted or reverted before the next
//! begins, and a trial that is reverted takes back the one value it changed and nothing else.
//!
//! The values of a filter are opaque here: each is a word that its owner encodes and decodes.
//! The owner makes the candidates and measures the error of a bank; what is due next, how the
//! bank looks during a trial and whether the trial stands is decided here.
use crate::filter::{Filter, Parameter};
use rand::rngs::ThreadRng;
use rand::Rng;
use vstd::prelude::*;

verus! {

/// The number of equally likely values of one draw: two to the power of 53.
pub const UNIT: u64 = 9007199254740992;

/// One single change that is tried: which parameter of which slot, in which iteration.
#[derive(Clone, Copy, Debug, PartialEq, Eq, Structural)]
pub struct Trial {
    pub iteration: usize,
    pub slot: usize,
    pub parameter: Parameter,
}

/// What becomes of a trial.
#[derive(Clone, Copy, Debug, PartialEq, Eq, Structural)]
pub enum Verdict {
    /// The changed parameter stays, and the error after it is the new reference.
    Accept,
    /// The parameter just changed goes back to what it was; the rest of the filter stays.
    Revert,
}

/// The place of a parameter in the order of trials.
pub open spec fn place(parameter: Parameter) -> nat {
    match parameter {
        Parameter::Center => 0,
        Parameter::Quality => 1,
        Parameter::Gain => 2,
    }
}

/// Where a run stands.
pub struct Run {
    /// The number of iterations of the whole run.
    pub iterations: nat,
    /// The number of slots of the bank.
    pub slots: nat,
    /// The iteration of the trial that is due.
    pub iteration: nat,
    /// The slot of the trial that is due.
    pub slot: nat,
    /// The parameter of the trial that is due.
    pub parameter: Parameter,
}

impl Run {
    /// A run before its first trial. A run over an empty bank has nothing to try.
    pub open spec fn start(iterations: nat, slots: nat) -> Run {
        Run {
            iterations,
            slots,
            iteration: if slots == 0 {
                iterations
            } else {
                0
            },
            slot: 0,
            parameter: Parameter::Center,
        }
    }

    /// No trial is due any more.
    pub open spec fn finished(self) -> bool {
        self.iteration >= self.iterations
    }

    /// The run stands at a trial of its schedule, or at its end.
    pub open spec fn valid(self) -> bool {
        if self.finished() {
            self.iteration == self.iterations && self.slot == 0 && self.parameter
                == Parameter::Center
        } else {
            self.slot < self.slots
        }
    }

    /// The run one trial further: the next parameter of the slot, after the gain the next
    /// slot, after the last slot the next iteration.
    pub open spec fn next(self) -> Run {
        match self.parameter {
            Parameter::Center => Run { parameter: Parameter::Quality, ..self },
            Parameter::Quality => Run { parameter: Parameter::Gain, ..self },
            Parameter::Gain => if self.slot + 1 < self.slots {
                Run { slot: self.slot + 1, parameter: Parameter::Center, ..self }
            } else {
                Run { iteration: self.iteration + 1, slot: 0, parameter: Parameter::Center, ..self }
            },
        }
    }

    /// The number of trials that lie behind.
    pub open spec fn passed(self) -> nat {
        (self.iteration * self.slots + self.slot) * 3 + place(self.parameter)
    }

    /// The number of trials of the whole run.
    pub open spec fn total(self) -> nat {
        self.iterations * self.slots * 3
    }
}

/// Each step of a run leaves it on its schedule and puts exactly one trial behind it.
pub proof fn lemma_next_counts(run: Run)
    requires
        run.valid(),
        !run.finished(),
    ensures
        run.next().valid(),
        run.next().iterations == run.iterations,
        run.next().slots == run.slots,
        run.next().passed() == run.passed() + 1,
        run.passed() < run.total(),
{
    let i = run.iteration as int;
    let n = run.iterations as int;
    let s = run.slots as int;
    let k = run.slot as int;
    assert((i + 1) * s == i * s + s) by (nonlinear_arith);
    assert(i * s + s <= n * s) by (nonlinear_arith)
        requires
            i + 1 <= n,
            s >= 0,
    ;
}

/// A run is at its end exactly when all its trials lie behind it.
pub proof fn lemma_finished_counts(run: Run)
    requires
        run.valid(),
    ensures
        run.finished() <==> run.passed() == run.total(),
        run.passed() <= run.total(),
{
    if !run.finished() {
        lemma_next_counts(run);
    }
}

/// The schedule of one run.
pub struct Schedule {
    iterations: usize,
    slots: usize,
    iteration: usize,
    slot: usize,
    parameter: Parameter,
}

impl View for Schedule {
    type V = Run;

    closed spec fn view(&self) -> Run {
        Run {
            iterations: self.iterations as nat,
            slots: self.slots as nat,
            iteration: self.iteration as nat,
            slot: self.slot as nat,
            parameter: self.parameter,
        }
    }
}

impl Schedule {
    /// The schedule of a run of `iterations` iterations over a bank of `slots` filters,
    /// before its first trial.
    pub fn new(iterations: usize, slots: usize) -> (s: Schedule)
        ensures
            s@ == Run::start(iterations as nat, slots as nat),
            s@.valid(),
    {
        Schedule {
            iterations,
            slots,
            iteration: if slots == 0 {
                iterations
            } else {
                0
            },
            slot: 0,
            parameter: Parameter::Center,
        }
    }

    /// The number of iterations of the whole run.
    pub fn iterations(&self) -> (n: usize)
        ensures
            n == self@.iterations,
    {
        self.iterations
    }

    /// The number of slots of the bank.
    pub fn slots(&self) -> (n: usize)
        ensures
            n == self@.slots,
    {
        self.slots
    }

    /// The trial that is due, or `None` at the end of the run.
    pub fn current(&self) -> (t: Option<Trial>)
        ensures
            match t {
                Some(trial) => !self@.finished() && trial.iteration == self@.iteration
                    && trial.slot == self@.slot && trial.parameter == self@.parameter,
                None => self@.finished(),
            },
    {
        if self.iteration < self.iterations {
            Some(Trial { iteration: self.iteration, slot: self.slot, parameter: self.parameter })
        } else {
            None
        }
    }

    /// Moves on to the next trial. At the end of the run nothing changes.
    pub fn advance(&mut self)
        requires
            old(self)@.valid(),
        ensures
            final(self)@ == (if old(self)@.finished() {
                old(self)@
            } else {
                old(self)@.next()
            }),
            final(self)@.valid(),
    {
        if self.iteration >= self.iterations {
            return ;
        }
        proof {
            lemma_next_counts(self@);
        }
        match self.parameter {
            Parameter::Center => {
                self.parameter = Parameter::Quality;
            },
            Parameter::Quality => {
                self.parameter = Parameter::Gain;
            },
            Parameter::Gain => {
                self.parameter = Parameter::Center;
                if self.slot + 1 < self.slots {
                    self.slot = self.slot + 1;
                } else {
                    self.slot = 0;
                    self.iteration = self.iteration + 1;
                }
            },
        }
    }
}

/// What becomes of a trial: it stands where it lowered the error, and otherwise where the draw
/// lies below the threshold. The threshold is the number of draws, out of `UNIT`, on which a
/// trial that did not lower the error stands all the same.
pub open spec fn verdict(improved: bool, draw: u64, threshold: u64) -> Verdict {
    if improved || draw < threshold {
        Verdict::Accept
    } else {
        Verdict::Revert
    }
}

/// Decides a trial from a draw that was made for it.
pub fn decide(improved: bool, draw: u64, threshold: u64) -> (v: Verdict)
    ensures
        v == verdict(improved, draw, threshold),
{
    if improved || draw < threshold {
        Verdict::Accept
    } else {
        Verdict::Revert
    }
}

/// `rand::rngs::ThreadRng`: the handle to the generator of a thread. Nothing inside it is
/// visible here.
#[verifier::external_type_specification]
#[verifier::external_body]
pub struct ExThreadRng(ThreadRng);

/// `rand::rng`: a handle to the generator of the calling thread. Nothing is claimed of it. The
/// call fails only where the system has no seed to give to the generator.
#[verifier::external_body]
fn thread_generator() -> ThreadRng {
    rand::rng()
}

/// `rand::Rng::random` for `u64`: the next word of the generator, the one from which `rand`
/// itself makes a number between zero and one. Nothing is claimed of the word.
#[verifier::external_body]
fn next_word(generator: &mut ThreadRng) -> u64 {
    generator.random::<u64>()
}

/// The three draws from which a candidate for one slot is made, in the order in which they
/// were drawn.
#[derive(Clone, Copy, Debug, PartialEq, Eq, Structural)]
pub struct Offsets {
    pub center: u64,
    pub quality: u64,
    pub gain: u64,
}

/// The random source of one run. Each run has its own.
pub struct Source {
    generator: ThreadRng,
}

impl Source {
    /// The source of the calling thread.
    pub fn new() -> Source {
        Source { generator: thread_generator() }
    }

    /// A number below `UNIT`: the upper 53 bits of the generator's next word.
    pub fn draw(&mut self) -> (k: u64)
        ensures
            k < UNIT,
    {
        let word: u64 = next_word(&mut self.generator);
        let kept: u64 = upper_bits(word);
        kept
    }

    /// Three draws for the candidate of one slot: for its centre, its quality and its gain.
    pub fn offsets(&mut self) -> (o: Offsets)
        ensures
            o.center < UNIT,
            o.quality < UNIT,
            o.gain < UNIT,
    {
        let center: u64 = self.draw();
        let quality: u64 = self.draw();
        let gain: u64 = self.draw();
        Offsets { center, quality, gain }
    }

    /// Decides a trial. A trial that lowered the error stands, and no draw is made for it.
    /// Any other trial is decided by one draw.
    pub fn judge(&mut self, improved: bool, threshold: u64) -> (v: Verdict)
        ensures
            exists|draw: u64| draw < UNIT && v == verdict(improved, draw, threshold),
            improved ==> v == Verdict::Accept,
            !improved && threshold == 0 ==> v == Verdict::Revert,
            !improved && threshold >= UNIT ==> v == Verdict::Accept,
    {
        if improved {
            assert(0u64 < UNIT && Verdict::Accept == verdict(improved, 0u64, threshold));
            Verdict::Accept
        } else {
            let draw: u64 = self.draw();
            decide(improved, draw, threshold)
        }
    }
}

/// What a run waits for.
#[derive(Clone, Copy, Debug, PartialEq, Eq, Structural)]
pub enum Due {
    /// A candidate for the slot with this index.
    Candidate(usize),
    /// The outcome of this trial.
    Trial(Trial),
    /// Nothing: the run is over.
    Nothing,
}

/// A run with its bank.
pub struct Annealing {
    /// Where the run stands.
    pub run: Run,
    /// The bank as the trials so far have left it.
    pub bank: Seq<Filter>,
    /// The candidate for the slot that is due, once it has been made.
    pub candidate: Option<Filter>,
}

impl Annealing {
    /// A run of `iterations` iterations before its first trial.
    pub open spec fn start(bank: Seq<Filter>, iterations: nat) -> Annealing {
        Annealing { run: Run::start(iterations, bank.len()), bank, candidate: None }
    }

    /// The run is on its schedule, the schedule is that of the bank, and a slot whose centre
    /// has been tried has its candidate.
    pub open spec fn valid(self) -> bool {
        &&& self.run.valid()
        &&& self.run.slots == self.bank.len()
        &&& self.bank.len() <= usize::MAX
        &&& self.run.iterations <= usize::MAX
        &&& (self.candidate is None ==> self.run.finished() || self.run.parameter
            == Parameter::Center)
        &&& (self.run.finished() ==> self.candidate is None)
    }

    /// What the run waits for: nothing at its end, else a candidate for the slot that is due,
    /// else the outcome of the trial that is due.
    pub open spec fn due(self) -> Due {
        if self.run.finished() {
            Due::Nothing
        } else if self.candidate is None {
            Due::Candidate(self.run.slot as usize)
        } else {
            Due::Trial(
                Trial {
                    iteration: self.run.iteration as usize,
                    slot: self.run.slot as usize,
                    parameter: self.run.parameter,
                },
            )
        }
    }

    /// The bank as it is tried: while a trial is due, the parameter that is due has the
    /// candidate's value in the slot that is due. At any other time it is the bank itself.
    pub open spec fn attempt(self) -> Seq<Filter> {
        if self.due() is Trial {
            self.bank.update(
                self.run.slot as int,
                self.bank[self.run.slot as int].with(
                    self.run.parameter,
                    self.candidate->0.value(self.run.parameter),
                ),
            )
        } else {
            self.bank
        }
    }

    /// The run after a candidate was handed in. It is taken where one is due, and not
    /// otherwise.
    pub open spec fn proposed(self, candidate: Filter) -> Annealing {
        if self.due() is Candidate {
            Annealing { candidate: Some(candidate), ..self }
        } else {
            self
        }
    }

    /// The run after a trial was decided. An accepted trial makes the bank what was tried; a
    /// reverted one leaves the bank as it was. Then the next trial is due, and after the trial
    /// of the gain a new candidate. Where no trial is due nothing changes.
    pub open spec fn settled(self, verdict: Verdict) -> Annealing {
        if self.due() is Trial {
            Annealing {
                run: self.run.next(),
                bank: if verdict == Verdict::Accept {
                    self.attempt()
                } else {
                    self.bank
                },
                candidate: if self.run.parameter == Parameter::Gain {
                    None
                } else {
                    self.candidate
                },
            }
        } else {
            self
        }
    }
}

/// A trial touches one value only: the bank as it is tried has the size of the bank, every
/// other slot as it was, and in the slot that is due the other two parameters as they were.
pub proof fn lemma_attempt_changes_one_value(state: Annealing)
    requires
        state.valid(),
        state.due() is Trial,
    ensures
        state.attempt().len() == state.bank.len(),
        forall|s: int|
            0 <= s < state.bank.len() && s != state.run.slot ==> state.attempt()[s]
                == state.bank[s],
        forall|p: Parameter|
            p != state.run.parameter ==> state.attempt()[state.run.slot as int].value(p)
                == state.bank[state.run.slot as int].value(p),
        state.attempt()[state.run.slot as int].value(state.run.parameter)
            == state.candidate->0.value(state.run.parameter),
{
}

/// A candidate that is handed in leaves the run in order, and where one was due, a trial is
/// due after it.
pub proof fn lemma_proposed_keeps_valid(state: Annealing, candidate: Filter)
    requires
        state.valid(),
    ensures
        state.proposed(candidate).valid(),
        state.proposed(candidate).bank == state.bank,
        state.due() is Candidate ==> state.proposed(candidate).due() is Trial,
{
}

/// A trial that is decided leaves the run in order, puts one trial behind it and keeps the
/// size of the bank; reverted, it leaves the bank as it was.
pub proof fn lemma_settled_keeps_valid(state: Annealing, verdict: Verdict)
    requires
        state.valid(),
    ensures
        state.settled(verdict).valid(),
        state.settled(verdict).bank.len() == state.bank.len(),
        state.settled(Verdict::Revert).bank == state.bank,
        state.due() is Trial ==> state.settled(verdict).run.passed() == state.run.passed() + 1,
{
    if !state.run.finished() {
        lemma_next_counts(state.run);
    }
}

/// One annealing run: its schedule, its bank and its random source.
pub struct Annealer {
    schedule: Schedule,
    bank: Vec<Filter>,
    candidate: Option<Filter>,
    source: Source,
}

impl View for Annealer {
    type V = Annealing;

    closed spec fn view(&self) -> Annealing {
        Annealing { run: self.schedule@, bank: self.bank@, candidate: self.candidate }
    }
}

impl Annealer {
    /// A run of `iterations` iterations from the given bank, with the random source of the
    /// calling thread.
    pub fn new(bank: Vec<Filter>, iterations: usize) -> (a: Annealer)
        ensures
            a@ == Annealing::start(bank@, iterations as nat),
            a@.valid(),
    {
        let schedule = Schedule::new(iterations, bank.len());
        Annealer { schedule, bank, candidate: None, source: Source::new() }
    }

    /// What the run waits for.
    pub fn due(&self) -> (d: Due)
        ensures
            d == self@.due(),
    {
        match self.schedule.current() {
            None => Due::Nothing,
            Some(trial) => match self.candidate {
                None => Due::Candidate(trial.slot),
                Some(_) => Due::Trial(trial),
            },
        }
    }

    /// The bank as the trials so far have left it.
    pub fn bank(&self) -> (b: &Vec<Filter>)
        ensures
            b@ == self@.bank,
    {
        &self.bank
    }

    /// Three draws from the source of the run, for a candidate.
    pub fn offsets(&mut self) -> (o: Offsets)
        ensures
            final(self)@ == old(self)@,
            o.center < UNIT,
            o.quality < UNIT,
            o.gain < UNIT,
    {
        self.source.offsets()
    }

    /// Hands in the candidate for the slot that is due.
    pub fn propose(&mut self, candidate: Filter)
        requires
            old(self)@.valid(),
        ensures
            final(self)@ == old(self)@.proposed(candidate),
            final(self)@.valid(),
    {
        if self.schedule.current().is_some() && self.candidate.is_none() {
            self.candidate = Some(candidate);
        }
    }

    /// The bank as it is tried now.
    pub fn attempt(&self) -> (tried: Vec<Filter>)
        requires
            self@.valid(),
        ensures
            tried@ == self@.attempt(),
    {
        let n: usize = self.bank.len();
        let mut tried: Vec<Filter> = Vec::new();
        let mut i: usize = 0;
        while i < n
            invariant
                n == self.bank.len(),
                i <= n,
                tried@ == self.bank@.take(i as int),
            decreases n - i,
        {
            tried.push(self.bank[i]);
            proof {
                assert(self.bank@.take(i + 1) == self.bank@.take(i as int).push(
                    self.bank@[i as int],
                ));
            }
            i = i + 1;
        }
        proof {
            assert(self.bank@.take(n as int) == self.bank@);
        }
        match (self.schedule.current(), self.candidate) {
            (Some(trial), Some(candidate)) => {
                let changed: Filter = self.bank[trial.slot].replaced(
                    trial.parameter,
                    candidate.get(trial.parameter),
                );
                tried.set(trial.slot, changed);
            },
            _ => {},
        }
        tried
    }

    /// Closes the trial that is due with the verdict given.
    pub fn settle_as(&mut self, verdict: Verdict)
        requires
            old(self)@.valid(),
        ensures
            final(self)@ == old(self)@.settled(verdict),
            final(self)@.valid(),
    {
        proof {
            lemma_settled_keeps_valid(self@, verdict);
        }
        match (self.schedule.current(), self.candidate) {
            (Some(trial), Some(_)) => {
                match verdict {
                    Verdict::Accept => {
                        let tried: Vec<Filter> = self.attempt();
                        self.bank = tried;
                    },
                    Verdict::Revert => {},
                }
                match trial.parameter {
                    Parameter::Gain => {
                        self.candidate = None;
                    },
                    _ => {},
                }
                self.schedule.advance();
            },
            _ => {},
        }
    }

    /// Decides the trial that is due and closes it. A trial that lowered the error stands.
    /// Any other trial stands where a draw from the source of the run lies below the
    /// threshold.
    pub fn settle(&mut self, improved: bool, threshold: u64) -> (v: Verdict)
        requires
            old(self)@.valid(),
        ensures
            exists|draw: u64| draw < UNIT && v == verdict(improved, draw, threshold),
            final(self)@ == old(self)@.settled(v),
            final(self)@.valid(),
    {
        let v: Verdict = self.source.judge(improved, threshold);
        self.settle_as(v);
        v
    }

    /// Ends the run and hands out its bank, as the last trial left it.
    pub fn finish(self) -> (bank: Vec<Filter>)
        ensures
            bank@ == self@.bank,
    {
        self.bank
    }
}

/// The part of a word that a draw keeps: its upper 53 bits.
pub open spec fn upper(word: u64) -> u64 {
    word >> 11
}

/// The part of a word that a draw keeps. It lies below `UNIT` whatever the word is.
pub fn upper_bits(word: u64) -> (k: u64)
    ensures
        k == upper(word),
        k < UNIT,
{
    assert(word >> 11 < 9007199254740992u64) by (bit_vector);
    word >> 11
}

} // verus!
