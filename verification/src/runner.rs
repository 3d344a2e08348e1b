//! The benchmark protocol: which document to run next, what to keep of each
//! run, and when a trial is over.
//!
//! The harness that owns the clock and the codecs drives a [`BenchmarkRun`]:
//! it asks for the next step, runs the pipeline on the document named, and
//! hands back what it saw. Documents are taken in corpus order, each one the
//! set number of times in a row, and the first failure ends the trial.

use vstd::prelude::*;

use crate::metric::{ErrorKind, Observation, PerDocumentMetric};

verus! {

/// The number of runs that each document gets when a candidate is scored
/// against the baseline.
pub const COMPARATIVE_REPETITIONS: u32 = 3;

/// The number of runs that each document gets when a baseline is
/// established.
pub const BASELINE_REPETITIONS: u32 = 5;

/// The elapsed times of `runs`, added up.
pub open spec fn total_elapsed(runs: Seq<Observation>) -> int
    decreases runs.len(),
{
    if runs.len() == 0 {
        0
    } else {
        total_elapsed(runs.drop_last()) + runs.last().elapsed_picos
    }
}

/// What is kept of the runs of one document: the size that the last of
/// them gave, and their mean elapsed time, rounded down.
pub open spec fn averaged(runs: Seq<Observation>) -> PerDocumentMetric
    recommends
        runs.len() > 0,
{
    PerDocumentMetric {
        size_bytes: runs.last().size_bytes,
        latency_picos: (total_elapsed(runs) / (runs.len() as int)) as u64,
    }
}

/// The result of a trial: entry `d` is what is kept of the runs of
/// document `d`.
pub open spec fn trial_result(rounds: Seq<Seq<Observation>>) -> Seq<PerDocumentMetric> {
    Seq::new(rounds.len(), |d: int| averaged(rounds[d]))
}

/// Whether all of `runs` gave the same size.
pub open spec fn same_size(runs: Seq<Observation>) -> bool {
    forall|i: int, j: int|
        0 <= i < runs.len() && 0 <= j < runs.len() ==> (#[trigger] runs[i]).size_bytes == (
        #[trigger] runs[j]).size_bytes
}

/// How one run of the pipeline ended.
#[derive(Clone, Copy, Debug, PartialEq, Eq, Structural)]
pub enum Outcome {
    /// The document was serialized and compressed.
    Measured(Observation),
    /// The run failed.
    Failed(ErrorKind),
}

/// What the harness is to do next.
#[derive(Clone, Copy, Debug, PartialEq, Eq, Structural)]
pub enum Step {
    /// Run the pipeline once on the document at this index of the corpus.
    Execute { document: usize },
    /// Every document has had all its runs: the result can be taken.
    Complete,
    /// A run failed: the trial is over and has no result.
    Abort { kind: ErrorKind },
}

/// The state of a trial as the protocol sees it.
pub struct RunView {
    /// The number of documents in the corpus.
    pub corpus_len: nat,
    /// The number of runs that each document gets.
    pub repetitions: nat,
    /// The runs of the documents that have had all of theirs, in corpus
    /// order.
    pub rounds: Seq<Seq<Observation>>,
    /// The runs so far of the document that is next in the corpus.
    pub pending: Seq<Observation>,
    /// The failure that ended the trial, if one did.
    pub failure: Option<ErrorKind>,
}

impl RunView {
    /// The state before the first run.
    pub open spec fn initial(corpus_len: nat, repetitions: nat) -> RunView {
        RunView {
            corpus_len,
            repetitions,
            rounds: Seq::empty(),
            pending: Seq::empty(),
            failure: None,
        }
    }

    /// What holds of every state that a trial passes through.
    pub open spec fn well_formed(self) -> bool {
        &&& self.repetitions > 0
        &&& self.rounds.len() <= self.corpus_len
        &&& forall|d: int|
            0 <= d < self.rounds.len() ==> (#[trigger] self.rounds[d]).len() == self.repetitions
        &&& self.pending.len() < self.repetitions
        &&& self.rounds.len() == self.corpus_len ==> self.pending.len() == 0
    }

    /// What the harness is to do in this state.
    pub open spec fn step(self) -> Step {
        match self.failure {
            Some(kind) => Step::Abort { kind },
            None => if self.rounds.len() < self.corpus_len {
                Step::Execute { document: self.rounds.len() as usize }
            } else {
                Step::Complete
            },
        }
    }

    /// The state that follows when the step of this one ended in `outcome`.
    /// A state whose step is not `Execute` takes no outcome and stays as it
    /// is.
    pub open spec fn after(self, outcome: Outcome) -> RunView {
        if self.step() is Execute {
            match outcome {
                Outcome::Failed(kind) => RunView { failure: Some(kind), ..self },
                Outcome::Measured(observation) => {
                    let runs = self.pending.push(observation);
                    if runs.len() >= self.repetitions {
                        RunView { rounds: self.rounds.push(runs), pending: Seq::empty(), ..self }
                    } else {
                        RunView { pending: runs, ..self }
                    }
                },
            }
        } else {
            self
        }
    }

    /// Whether the runs of each document so far agree on its compressed
    /// size.
    pub open spec fn sizes_stable(self) -> bool {
        &&& same_size(self.pending)
        &&& forall|d: int| 0 <= d < self.rounds.len() ==> same_size(#[trigger] self.rounds[d])
    }
}

/// A trial in progress: one pipeline over the whole corpus.
pub struct BenchmarkRun {
    corpus_len: usize,
    repetitions: u32,
    finished: Vec<PerDocumentMetric>,
    pending_runs: u32,
    pending_elapsed: u128,
    pending_size: u64,
    failure: Option<ErrorKind>,
    stable: bool,
    rounds: Ghost<Seq<Seq<Observation>>>,
    pending: Ghost<Seq<Observation>>,
}

impl View for BenchmarkRun {
    type V = RunView;

    closed spec fn view(&self) -> RunView {
        RunView {
            corpus_len: self.corpus_len as nat,
            repetitions: self.repetitions as nat,
            rounds: self.rounds@,
            pending: self.pending@,
            failure: self.failure,
        }
    }
}

/// Adding a run to `runs` adds its elapsed time to their total.
proof fn lemma_total_elapsed_push(runs: Seq<Observation>, observation: Observation)
    ensures
        total_elapsed(runs.push(observation)) == total_elapsed(runs) + observation.elapsed_picos,
{
    assert(runs.push(observation).drop_last() =~= runs);
}

/// The total of `runs` is at most as many times the longest time that one
/// run can take.
proof fn lemma_total_elapsed_bound(runs: Seq<Observation>)
    ensures
        0 <= total_elapsed(runs) <= runs.len() * u64::MAX,
    decreases runs.len(),
{
    if runs.len() > 0 {
        lemma_total_elapsed_bound(runs.drop_last());
        assert(runs.len() * u64::MAX == (runs.len() - 1) * u64::MAX + u64::MAX)
            by (nonlinear_arith);
    } else {
        assert(runs.len() * u64::MAX == 0) by (nonlinear_arith)
            requires
                runs.len() == 0,
        ;
    }
}

/// The mean of `runs` is a time that one run can take, so the latency kept
/// is that mean, rounded down, and nothing else.
pub proof fn lemma_mean_fits(runs: Seq<Observation>)
    requires
        runs.len() > 0,
    ensures
        0 <= total_elapsed(runs) / (runs.len() as int) <= u64::MAX,
        averaged(runs).latency_picos == total_elapsed(runs) / (runs.len() as int),
{
    lemma_total_elapsed_bound(runs);
    let total = total_elapsed(runs);
    let count = runs.len() as int;
    assert(0 <= total / count <= u64::MAX) by (nonlinear_arith)
        requires
            0 <= total <= count * u64::MAX,
            count > 0,
    ;
}

/// Runs that agree on the size still do with one more exactly when there
/// was none before or the new one gives the size of the last.
proof fn lemma_same_size_push(runs: Seq<Observation>, observation: Observation)
    ensures
        same_size(runs.push(observation)) <==> same_size(runs) && (runs.len() == 0
            || observation.size_bytes == runs.last().size_bytes),
{
    let longer = runs.push(observation);
    if same_size(longer) {
        assert forall|i: int, j: int| 0 <= i < runs.len() && 0 <= j < runs.len() implies (
        #[trigger] runs[i]).size_bytes == (#[trigger] runs[j]).size_bytes by {
            assert(longer[i].size_bytes == longer[j].size_bytes);
        }
        if runs.len() > 0 {
            assert(longer[runs.len() as int].size_bytes == longer[runs.len() - 1].size_bytes);
        }
    }
    if same_size(runs) && (runs.len() == 0 || observation.size_bytes == runs.last().size_bytes) {
        assert forall|i: int, j: int| 0 <= i < longer.len() && 0 <= j < longer.len() implies (
        #[trigger] longer[i]).size_bytes == (#[trigger] longer[j]).size_bytes by {
            if runs.len() > 0 {
                let last = runs.len() - 1;
                if i < runs.len() {
                    assert(runs[i].size_bytes == runs[last].size_bytes);
                }
                if j < runs.len() {
                    assert(runs[j].size_bytes == runs[last].size_bytes);
                }
            }
        }
    }
}

impl BenchmarkRun {
    #[verifier::type_invariant]
    spec fn coherent(&self) -> bool {
        &&& self@.well_formed()
        &&& self.finished@ == trial_result(self.rounds@)
        &&& self.pending_runs == self.pending@.len()
        &&& self.pending_elapsed == total_elapsed(self.pending@)
        &&& self.pending@.len() > 0 ==> self.pending_size == self.pending@.last().size_bytes
        &&& self.stable == self@.sizes_stable()
    }

    /// Begins a trial over `corpus_len` documents with `repetitions` runs of
    /// each. There is no trial without at least one run per document.
    pub fn start(corpus_len: usize, repetitions: u32) -> (run: Option<BenchmarkRun>)
        ensures
            run is Some <==> repetitions > 0,
            run matches Some(r) ==> r@ == RunView::initial(corpus_len as nat, repetitions as nat),
    {
        if repetitions == 0 {
            return None;
        }
        let finished: Vec<PerDocumentMetric> = Vec::new();
        assert(finished@ =~= trial_result(Seq::empty()));
        Some(
            BenchmarkRun {
                corpus_len,
                repetitions,
                finished,
                pending_runs: 0,
                pending_elapsed: 0,
                pending_size: 0,
                failure: None,
                stable: true,
                rounds: Ghost(Seq::empty()),
                pending: Ghost(Seq::empty()),
            },
        )
    }

    /// What the harness is to do next.
    pub fn next_step(&self) -> (step: Step)
        ensures
            step == self@.step(),
            self@.well_formed(),
    {
        proof {
            use_type_invariant(self);
        }
        match self.failure {
            Some(kind) => Step::Abort { kind },
            None => if self.finished.len() < self.corpus_len {
                Step::Execute { document: self.finished.len() }
            } else {
                Step::Complete
            },
        }
    }

    /// Whether the runs of each document so far agree on its compressed
    /// size, as they do under a deterministic pipeline.
    pub fn sizes_stable(&self) -> (stable: bool)
        ensures
            stable == self@.sizes_stable(),
    {
        proof {
            use_type_invariant(self);
        }
        self.stable
    }

    /// Takes the outcome of the step that [`next_step`](Self::next_step)
    /// asked for, and says what to do after it. A trial that is complete or
    /// aborted stays as it is.
    pub fn advance(self, outcome: Outcome) -> (next: (BenchmarkRun, Step))
        ensures
            next.0@ == self@.after(outcome),
            next.1 == next.0@.step(),
    {
        proof {
            use_type_invariant(&self);
        }
        let current = self.next_step();
        let observation = match (current, outcome) {
            (Step::Execute { .. }, Outcome::Measured(observation)) => observation,
            (Step::Execute { .. }, Outcome::Failed(kind)) => {
                let BenchmarkRun {
                    corpus_len,
                    repetitions,
                    finished,
                    pending_runs,
                    pending_elapsed,
                    pending_size,
                    failure: _,
                    stable,
                    rounds,
                    pending,
                } = self;
                proof {
                    let halted = RunView { failure: Some(kind), ..self@ };
                    assert(halted.well_formed());
                    assert(halted.sizes_stable() == stable);
                }
                let run = BenchmarkRun {
                    corpus_len,
                    repetitions,
                    finished,
                    pending_runs,
                    pending_elapsed,
                    pending_size,
                    failure: Some(kind),
                    stable,
                    rounds,
                    pending,
                };
                return (run, Step::Abort { kind });
            },
            _ => {
                return (self, current);
            },
        };
        let BenchmarkRun {
            corpus_len,
            repetitions,
            finished,
            pending_runs,
            pending_elapsed,
            pending_size,
            failure,
            stable,
            rounds,
            pending,
        } = self;
        let ghost runs = pending@.push(observation);
        proof {
            lemma_total_elapsed_push(pending@, observation);
            lemma_total_elapsed_bound(pending@);
            lemma_same_size_push(pending@, observation);
            lemma_mean_fits(runs);
            assert(pending@.len() * u64::MAX <= u32::MAX * u64::MAX) by (nonlinear_arith)
                requires
                    pending@.len() <= u32::MAX,
            ;
        }
        let count: u32 = pending_runs + 1;
        let total: u128 = pending_elapsed + observation.elapsed_picos as u128;
        let agree = stable && (pending_runs == 0 || observation.size_bytes == pending_size);
        if count == repetitions {
            let metric = PerDocumentMetric {
                size_bytes: observation.size_bytes,
                latency_picos: (total / count as u128) as u64,
            };
            let mut finished = finished;
            finished.push(metric);
            let ghost longer = rounds@.push(runs);
            proof {
                assert(metric == averaged(runs));
                assert(finished@ =~= trial_result(longer));
                assert(same_size(Seq::<Observation>::empty()));
                if agree {
                    assert forall|d: int| 0 <= d < longer.len() implies same_size(
                        #[trigger] longer[d],
                    ) by {
                        if d < rounds@.len() {
                            assert(same_size(rounds@[d]));
                        }
                    }
                } else if forall|d: int| 0 <= d < longer.len() ==> same_size(#[trigger] longer[d]) {
                    assert(same_size(longer[rounds@.len() as int]));
                    assert forall|d: int| 0 <= d < rounds@.len() implies same_size(
                        #[trigger] rounds@[d],
                    ) by {
                        assert(same_size(longer[d]));
                    }
                }
                let moved = RunView {
                    corpus_len: corpus_len as nat,
                    repetitions: repetitions as nat,
                    rounds: longer,
                    pending: Seq::empty(),
                    failure,
                };
                assert(moved.well_formed());
                assert(moved.sizes_stable() == agree);
            }
            let run = BenchmarkRun {
                corpus_len,
                repetitions,
                finished,
                pending_runs: 0,
                pending_elapsed: 0,
                pending_size: 0,
                failure,
                stable: agree,
                rounds: Ghost(longer),
                pending: Ghost(Seq::empty()),
            };
            let step = run.next_step();
            (run, step)
        } else {
            proof {
                let moved = RunView {
                    corpus_len: corpus_len as nat,
                    repetitions: repetitions as nat,
                    rounds: rounds@,
                    pending: runs,
                    failure,
                };
                assert(moved.well_formed());
                assert(moved.sizes_stable() == agree);
            }
            let run = BenchmarkRun {
                corpus_len,
                repetitions,
                finished,
                pending_runs: count,
                pending_elapsed: total,
                pending_size: observation.size_bytes,
                failure,
                stable: agree,
                rounds,
                pending: Ghost(runs),
            };
            (run, current)
        }
    }

    /// Ends the trial. A complete one gives its result: one entry per
    /// document, in corpus order, each made of the runs of that document
    /// alone. A trial that is aborted or still has runs to make gives none.
    pub fn finish(self) -> (result: Option<Vec<PerDocumentMetric>>)
        ensures
            result is Some <==> self@.step() is Complete,
            result matches Some(metrics) ==> metrics@ == trial_result(self@.rounds)
                && metrics@.len() == self@.corpus_len,
    {
        proof {
            use_type_invariant(&self);
        }
        match self.next_step() {
            Step::Complete => Some(self.finished),
            _ => None,
        }
    }
}

impl RunView {
    /// The state that follows when the steps from this one on ended in
    /// `outcomes`, one after the other.
    pub open spec fn replay(self, outcomes: Seq<Outcome>) -> RunView
        decreases outcomes.len(),
    {
        if outcomes.len() == 0 {
            self
        } else {
            self.replay(outcomes.drop_last()).after(outcomes.last())
        }
    }
}

/// `runs` as the outcomes of as many steps that all went well.
pub open spec fn measured(runs: Seq<Observation>) -> Seq<Outcome> {
    Seq::new(runs.len(), |i: int| Outcome::Measured(runs[i]))
}

/// The runs of a whole trial in the order in which they are made: those of
/// the first document, then those of the second, and so on.
pub open spec fn in_order(rounds: Seq<Seq<Observation>>) -> Seq<Observation>
    decreases rounds.len(),
{
    if rounds.len() == 0 {
        Seq::empty()
    } else {
        in_order(rounds.drop_last()) + rounds.last()
    }
}

/// Every state that follows a well-formed one is well-formed.
pub proof fn lemma_after_keeps_well_formed(view: RunView, outcome: Outcome)
    requires
        view.well_formed(),
    ensures
        view.after(outcome).well_formed(),
{
    if view.step() is Execute {
        if let Outcome::Measured(observation) = outcome {
            let runs = view.pending.push(observation);
            if runs.len() >= view.repetitions {
                let longer = view.rounds.push(runs);
                assert forall|d: int| 0 <= d < longer.len() implies (#[trigger] longer[d]).len()
                    == view.repetitions by {
                    if d < view.rounds.len() {
                        assert(longer[d] == view.rounds[d]);
                    }
                }
            }
        }
    }
}

/// No failure is retried and no finished trial goes on: once the step is
/// `Abort` or `Complete`, whatever comes in leaves the state as it is.
pub proof fn lemma_ended_trial_stays(view: RunView, outcomes: Seq<Outcome>)
    requires
        !(view.step() is Execute),
    ensures
        view.replay(outcomes) == view,
    decreases outcomes.len(),
{
    if outcomes.len() > 0 {
        lemma_ended_trial_stays(view, outcomes.drop_last());
    }
}

/// Replaying two runs of outcomes one after the other is replaying their
/// concatenation.
pub proof fn lemma_replay_concat(view: RunView, first: Seq<Outcome>, second: Seq<Outcome>)
    ensures
        view.replay(first + second) == view.replay(first).replay(second),
    decreases second.len(),
{
    if second.len() == 0 {
        assert(first + second =~= first);
    } else {
        lemma_replay_concat(view, first, second.drop_last());
        assert((first + second).drop_last() =~= first + second.drop_last());
    }
}

/// While a document has runs to make, each one that goes well is set
/// aside with those before it.
proof fn lemma_round_in_progress(view: RunView, runs: Seq<Observation>, upto: int)
    requires
        view.step() is Execute,
        view.pending.len() == 0,
        0 <= upto <= runs.len(),
        upto < view.repetitions,
    ensures
        view.replay(measured(runs.take(upto))) == (RunView { pending: runs.take(upto), ..view }),
    decreases upto,
{
    let outcomes = measured(runs.take(upto));
    if upto == 0 {
        assert(runs.take(0) =~= view.pending);
    } else {
        lemma_round_in_progress(view, runs, upto - 1);
        assert(outcomes.drop_last() =~= measured(runs.take(upto - 1)));
        assert(outcomes.last() == Outcome::Measured(runs[upto - 1]));
        assert(runs.take(upto - 1).push(runs[upto - 1]) =~= runs.take(upto));
    }
}

/// A document whose runs all go well is done after the set number of them,
/// and they are kept together as its round.
pub proof fn lemma_round_completes(view: RunView, runs: Seq<Observation>)
    requires
        view.step() is Execute,
        view.pending.len() == 0,
        view.repetitions > 0,
        runs.len() == view.repetitions,
    ensures
        view.replay(measured(runs)) == (RunView {
            rounds: view.rounds.push(runs),
            pending: Seq::empty(),
            ..view
        }),
{
    let outcomes = measured(runs);
    let before = runs.len() - 1;
    lemma_round_in_progress(view, runs, before);
    assert(outcomes.drop_last() =~= measured(runs.take(before)));
    assert(outcomes.last() == Outcome::Measured(runs[before]));
    assert(runs.take(before).push(runs[before]) =~= runs);
}

/// A trial whose runs all go well deals them out to the documents in
/// corpus order, the set number to each: after the runs of the first
/// documents of the corpus, made in order, the rounds are those documents'
/// runs, none is left over, and nothing has failed.
pub proof fn lemma_trial_is_index_aligned(
    corpus_len: nat,
    repetitions: nat,
    rounds: Seq<Seq<Observation>>,
)
    requires
        repetitions > 0,
        rounds.len() <= corpus_len,
        forall|d: int| 0 <= d < rounds.len() ==> (#[trigger] rounds[d]).len() == repetitions,
    ensures
        RunView::initial(corpus_len, repetitions).replay(measured(in_order(rounds))) == (RunView {
            corpus_len,
            repetitions,
            rounds,
            pending: Seq::empty(),
            failure: None,
        }),
    decreases rounds.len(),
{
    let start = RunView::initial(corpus_len, repetitions);
    if rounds.len() == 0 {
        assert(rounds =~= start.rounds);
        assert(measured(in_order(rounds)) =~= Seq::<Outcome>::empty());
    } else {
        let earlier = rounds.drop_last();
        let runs = rounds.last();
        lemma_trial_is_index_aligned(corpus_len, repetitions, earlier);
        let reached = start.replay(measured(in_order(earlier)));
        assert(measured(in_order(rounds)) =~= measured(in_order(earlier)) + measured(runs));
        lemma_replay_concat(start, measured(in_order(earlier)), measured(runs));
        lemma_round_completes(reached, runs);
        assert(earlier.push(runs) =~= rounds);
    }
}

/// A complete trial has one entry for each document of the corpus, and the
/// entry at an index is made of the runs of the document at that index.
pub proof fn lemma_result_covers_corpus(view: RunView)
    requires
        view.well_formed(),
        view.step() is Complete,
    ensures
        trial_result(view.rounds).len() == view.corpus_len,
        forall|d: int|
            0 <= d < view.corpus_len ==> #[trigger] trial_result(view.rounds)[d] == averaged(
                view.rounds[d],
            ),
{
}

/// The size kept for a document does not depend on how often it was run
/// nor on how long the runs took: where all runs of it give one size, as
/// they do under a deterministic pipeline, any two sets of them keep that
/// size.
pub proof fn lemma_size_is_repetition_invariant(first: Seq<Observation>, second: Seq<Observation>)
    requires
        first.len() > 0,
        second.len() > 0,
        same_size(first + second),
    ensures
        averaged(first).size_bytes == averaged(second).size_bytes,
        forall|i: int|
            0 <= i < first.len() ==> (#[trigger] first[i]).size_bytes == averaged(
                first,
            ).size_bytes,
{
    let all = first + second;
    let a = first.len() - 1;
    let b = first.len() + second.len() - 1;
    assert(all[a] == first.last());
    assert(all[b] == second.last());
    assert(all[a].size_bytes == all[b].size_bytes);
    assert forall|i: int| 0 <= i < first.len() implies (#[trigger] first[i]).size_bytes
        == averaged(first).size_bytes by {
        assert(all[i] == first[i]);
        assert(all[i].size_bytes == all[a].size_bytes);
    }
}

/// The total of runs that each took between `low` and `high` lies between
/// as many times `low` and as many times `high`.
proof fn lemma_total_between(runs: Seq<Observation>, low: int, high: int)
    requires
        forall|i: int| 0 <= i < runs.len() ==> low <= (#[trigger] runs[i]).elapsed_picos <= high,
    ensures
        runs.len() * low <= total_elapsed(runs) <= runs.len() * high,
    decreases runs.len(),
{
    if runs.len() == 0 {
        assert(runs.len() * low == 0 && runs.len() * high == 0) by (nonlinear_arith)
            requires
                runs.len() == 0,
        ;
    } else {
        let earlier = runs.drop_last();
        assert forall|i: int| 0 <= i < earlier.len() implies low <= (
        #[trigger] earlier[i]).elapsed_picos <= high by {
            assert(earlier[i] == runs[i]);
        }
        lemma_total_between(earlier, low, high);
        assert(low <= runs[runs.len() - 1].elapsed_picos <= high);
        assert(runs.len() * low == earlier.len() * low + low && runs.len() * high
            == earlier.len() * high + high) by (nonlinear_arith)
            requires
                earlier.len() == runs.len() - 1,
        ;
    }
}

/// Averaging damps jitter: the latency kept for a document is no shorter
/// than its fastest run and no longer than its slowest.
pub proof fn lemma_latency_within_runs(runs: Seq<Observation>, low: int, high: int)
    requires
        runs.len() > 0,
        forall|i: int| 0 <= i < runs.len() ==> low <= (#[trigger] runs[i]).elapsed_picos <= high,
    ensures
        low <= averaged(runs).latency_picos <= high,
{
    lemma_total_between(runs, low, high);
    lemma_mean_fits(runs);
    let total = total_elapsed(runs);
    let count = runs.len() as int;
    assert(low <= total / count <= high) by (nonlinear_arith)
        requires
            count > 0,
            count * low <= total <= count * high,
    ;
}

} // verus!
