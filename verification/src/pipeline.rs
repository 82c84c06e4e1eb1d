//! The update run: which statement to send next, and what came of those sent.
//!
//! The pipeline sends nothing itself.  It hands out one statement at a time,
//! is told how the database answered, and keeps the tally.  Batches are sent
//! in order, one at a time; no transaction spans two of them, so a batch that
//! was applied stays applied whatever happens to the next.

use vstd::prelude::*;
use crate::batch::{
    batch_count, batch_of, batch_range, batch_start, count_batches, lemma_batch_bounds,
    lemma_batch_count,
};
use crate::record::{views, PriceRecord, RecordView};
use crate::statement::{batch_statement, included, keys_of, Statement, StatementView};
use crate::text::text_views;

verus! {

/// What the run does once a batch has failed.
#[derive(Clone, Copy, Debug, PartialEq, Eq, Structural)]
pub enum FailurePolicy {
    /// The run ends with the first batch that fails.
    FailFast,
    /// The run goes on, and reports every batch that failed at the end.
    CollectAll,
}

/// How the database answered one statement.
#[derive(Debug, PartialEq, Eq)]
pub enum BatchResult {
    /// The statement was applied; the number of rows it affected.
    Applied(u64),
    /// The statement failed; the reason.
    Failed(String),
}

/// What a [`BatchResult`] holds.
pub enum ResultView {
    Applied(nat),
    Failed(Seq<char>),
}

impl View for BatchResult {
    type V = ResultView;

    open spec fn view(&self) -> ResultView {
        match self {
            BatchResult::Applied(rows) => ResultView::Applied(*rows as nat),
            BatchResult::Failed(error) => ResultView::Failed(error@),
        }
    }
}

/// A batch whose statement failed.
#[derive(Debug, PartialEq, Eq)]
pub struct BatchFailure {
    /// Which batch it was, counting from zero.
    pub batch_index: usize,
    /// The keys of the rows that were not updated.
    pub keys: Vec<String>,
    /// Why the statement failed.
    pub error: String,
}

/// What a [`BatchFailure`] holds.
pub struct FailureView {
    pub batch_index: nat,
    pub keys: Seq<Seq<char>>,
    pub error: Seq<char>,
}

impl View for BatchFailure {
    type V = FailureView;

    open spec fn view(&self) -> FailureView {
        FailureView {
            batch_index: self.batch_index as nat,
            keys: text_views(self.keys@),
            error: self.error@,
        }
    }
}

/// What a list of failures holds, failure by failure.
pub open spec fn failure_views(failures: Seq<BatchFailure>) -> Seq<FailureView> {
    Seq::new(failures.len(), |i: int| failures[i]@)
}

/// The tally of a run.
#[derive(Debug, PartialEq, Eq)]
pub struct RunOutcome {
    /// How many statements were handed out.
    pub batches_sent: usize,
    /// How many rows those statements were to update.
    pub rows_attempted: usize,
    /// How many rows the database reported as affected, all statements
    /// together.
    pub rows_applied: u128,
    /// The batches that failed, in the order in which they failed.
    pub failures: Vec<BatchFailure>,
}

/// What a [`RunOutcome`] holds.
pub struct OutcomeView {
    pub batches_sent: nat,
    pub rows_attempted: nat,
    pub rows_applied: nat,
    pub failures: Seq<FailureView>,
}

impl OutcomeView {
    /// A run succeeds if none of its batches failed.
    pub open spec fn succeeded(self) -> bool {
        self.failures.len() == 0
    }

    /// The tally before anything is sent.
    pub open spec fn empty() -> OutcomeView {
        OutcomeView { batches_sent: 0, rows_attempted: 0, rows_applied: 0, failures: Seq::empty() }
    }
}

impl View for RunOutcome {
    type V = OutcomeView;

    open spec fn view(&self) -> OutcomeView {
        OutcomeView {
            batches_sent: self.batches_sent as nat,
            rows_attempted: self.rows_attempted as nat,
            rows_applied: self.rows_applied as nat,
            failures: failure_views(self.failures@),
        }
    }
}

impl RunOutcome {
    /// Whether the run succeeded: whether no batch failed.
    pub fn succeeded(&self) -> (ok: bool)
        ensures
            ok == self@.succeeded(),
    {
        self.failures.len() == 0
    }
}

/// The first batch from `from` on that needs a statement: the first one with
/// a record that has a sale price.  The number of batches, if there is none.
pub open spec fn next_to_send(records: Seq<RecordView>, size: nat, from: nat) -> nat
    decreases batch_count(records.len(), size) - from,
{
    if from >= batch_count(records.len(), size) {
        batch_count(records.len(), size)
    } else if included(batch_of(records, size, from)).len() > 0 {
        from
    } else {
        next_to_send(records, size, from + 1)
    }
}

/// The state of a run.
pub struct PipelineView {
    /// The records to write, in load order.
    pub records: Seq<RecordView>,
    /// How many records one batch holds at most.
    pub batch_size: nat,
    /// What to do once a batch has failed.
    pub policy: FailurePolicy,
    /// The batch that is looked at next.
    pub next_batch: nat,
    /// The batch whose statement was handed out and awaits its result.
    pub pending: Option<nat>,
    /// Whether a failure has ended the run.
    pub halted: bool,
    /// The tally so far.
    pub outcome: OutcomeView,
}

impl PipelineView {
    /// How a run starts.
    pub open spec fn start(
        records: Seq<RecordView>,
        batch_size: nat,
        policy: FailurePolicy,
    ) -> PipelineView {
        PipelineView {
            records,
            batch_size,
            policy,
            next_batch: 0,
            pending: None,
            halted: false,
            outcome: OutcomeView::empty(),
        }
    }

    /// The number of batches of the run.
    pub open spec fn batch_total(self) -> nat {
        batch_count(self.records.len(), self.batch_size)
    }

    /// Batch `index` of the run.
    pub open spec fn batch(self, index: nat) -> Seq<RecordView> {
        batch_of(self.records, self.batch_size, index)
    }

    /// How many results have been taken in.
    pub open spec fn results_taken(self) -> int {
        if self.pending is Some {
            self.outcome.batches_sent - 1
        } else {
            self.outcome.batches_sent as int
        }
    }

    /// What holds of every state that a run passes through.
    pub open spec fn wf(self) -> bool {
        &&& self.batch_size > 0
        &&& self.next_batch <= self.batch_total()
        &&& self.pending matches Some(index) ==> index < self.next_batch && included(
            self.batch(index),
        ).len() > 0
        &&& self.outcome.batches_sent <= self.next_batch
        &&& self.results_taken() >= 0
        &&& self.outcome.failures.len() <= self.results_taken()
        &&& self.outcome.rows_attempted <= batch_start(
            self.records.len(),
            self.batch_size,
            self.next_batch,
        )
        &&& self.outcome.rows_applied <= self.results_taken() * u64::MAX
        &&& self.halted ==> self.policy == FailurePolicy::FailFast && !self.outcome.succeeded()
    }

    /// Whether nothing is left to do: no result is awaited, and either a
    /// failure has ended the run or no batch that is left needs a statement.
    pub open spec fn finished(self) -> bool {
        &&& self.pending is None
        &&& self.halted || next_to_send(self.records, self.batch_size, self.next_batch)
            >= self.batch_total()
    }

    /// The statement that is handed out next, if any.
    ///
    /// While a result is awaited, it is the statement of that batch once more.
    /// After a failure that ended the run, there is none.  Else it is the
    /// statement of the next batch that needs one.
    pub open spec fn statement_due(self) -> Option<StatementView> {
        match self.pending {
            Some(index) => batch_statement(self.batch(index)),
            None => {
                let index = next_to_send(self.records, self.batch_size, self.next_batch);
                if self.halted || index >= self.batch_total() {
                    None
                } else {
                    batch_statement(self.batch(index))
                }
            },
        }
    }

    /// The state after the next statement has been asked for.
    ///
    /// Batches that need no statement are passed over.  The batch whose
    /// statement is handed out now awaits its result, and its rows count as
    /// attempted.
    pub open spec fn after_request(self) -> PipelineView {
        if self.pending is Some || self.halted {
            self
        } else {
            let index = next_to_send(self.records, self.batch_size, self.next_batch);
            if index >= self.batch_total() {
                PipelineView { next_batch: self.batch_total(), ..self }
            } else {
                PipelineView {
                    next_batch: index + 1,
                    pending: Some(index),
                    outcome: OutcomeView {
                        batches_sent: self.outcome.batches_sent + 1,
                        rows_attempted: self.outcome.rows_attempted + included(
                            self.batch(index),
                        ).len(),
                        ..self.outcome
                    },
                    ..self
                }
            }
        }
    }

    /// The state after the awaited result has come in.
    ///
    /// A statement that was applied adds the rows it affected to the tally.
    /// One that failed is noted with its batch, the keys it was to update
    /// and the reason, and ends the run if the policy is to fail fast.  A
    /// result that nothing awaits changes nothing.
    pub open spec fn after_result(self, result: ResultView) -> PipelineView {
        match self.pending {
            None => self,
            Some(index) => match result {
                ResultView::Applied(rows) => PipelineView {
                    pending: None,
                    outcome: OutcomeView {
                        rows_applied: self.outcome.rows_applied + rows,
                        ..self.outcome
                    },
                    ..self
                },
                ResultView::Failed(error) => PipelineView {
                    pending: None,
                    halted: self.policy == FailurePolicy::FailFast,
                    outcome: OutcomeView {
                        failures: self.outcome.failures.push(
                            FailureView {
                                batch_index: index,
                                keys: keys_of(included(self.batch(index))),
                                error,
                            },
                        ),
                        ..self.outcome
                    },
                    ..self
                },
            },
        }
    }
}

/// `next_to_send` finds a batch that needs a statement, or runs out of
/// batches; it passes over none that needs one.
pub proof fn lemma_next_to_send(records: Seq<RecordView>, size: nat, from: nat)
    requires
        from <= batch_count(records.len(), size),
    ensures
        from <= next_to_send(records, size, from) <= batch_count(records.len(), size),
        next_to_send(records, size, from) < batch_count(records.len(), size) ==> included(
            batch_of(records, size, next_to_send(records, size, from)),
        ).len() > 0,
        forall|index: nat|
            from <= index < next_to_send(records, size, from) ==> included(
                #[trigger] batch_of(records, size, index),
            ).len() == 0,
    decreases batch_count(records.len(), size) - from,
{
    if from < batch_count(records.len(), size) && included(batch_of(records, size, from)).len()
        == 0 {
        lemma_next_to_send(records, size, from + 1);
    }
}

/// Asking for the next statement leads from one state of a run to another.
pub proof fn lemma_after_request_wf(state: PipelineView)
    requires
        state.wf(),
    ensures
        state.after_request().wf(),
{
    if state.pending is None && !state.halted {
        let len = state.records.len();
        let size = state.batch_size;
        let index = next_to_send(state.records, size, state.next_batch);
        lemma_next_to_send(state.records, size, state.next_batch);
        if index < state.batch_total() {
            lemma_batch_bounds(len, size, index);
            lemma_start_grows(len, size, state.next_batch, index);
            state.batch(index).lemma_filter_len(
                |record: RecordView| record.computed_price is Some,
            );
        } else {
            lemma_start_grows(len, size, state.next_batch, state.batch_total());
        }
    }
}

/// Taking in a result leads from one state of a run to another.
pub proof fn lemma_after_result_wf(state: PipelineView, result: ResultView)
    requires
        state.wf(),
        result matches ResultView::Applied(rows) ==> rows <= u64::MAX,
    ensures
        state.after_result(result).wf(),
{
    if state.pending is Some {
        let taken = state.results_taken();
        assert((taken + 1) * u64::MAX == taken * u64::MAX + u64::MAX) by (nonlinear_arith);
    }
}

/// A batch that failed costs its own rows and no others.  Unless the policy
/// is to fail fast, the run goes on as it would have, had the batch been
/// applied: the same statement is due next.  The tally keeps the rows that
/// were applied before and gains one failure, which names the batch and the
/// keys that it was to update.
pub proof fn lemma_failure_is_contained(state: PipelineView, error: Seq<char>, rows: nat)
    requires
        state.wf(),
        state.pending is Some,
        state.policy == FailurePolicy::CollectAll,
    ensures
        state.after_result(ResultView::Failed(error)).statement_due() == state.after_result(
            ResultView::Applied(rows),
        ).statement_due(),
        state.after_result(ResultView::Failed(error)).next_batch == state.next_batch,
        state.after_result(ResultView::Failed(error)).outcome.rows_applied
            == state.outcome.rows_applied,
        state.after_result(ResultView::Failed(error)).outcome.failures
            == state.outcome.failures.push(
            FailureView {
                batch_index: state.pending.unwrap(),
                keys: keys_of(included(state.batch(state.pending.unwrap()))),
                error,
            },
        ),
{
}

/// Where the policy is to fail fast, the first failure ends the run: no
/// further statement is due, and the run has not succeeded.
pub proof fn lemma_fail_fast_ends_the_run(state: PipelineView, error: Seq<char>)
    requires
        state.pending is Some,
        state.policy == FailurePolicy::FailFast,
    ensures
        state.after_result(ResultView::Failed(error)).finished(),
        state.after_result(ResultView::Failed(error)).statement_due() is None,
        !state.after_result(ResultView::Failed(error)).outcome.succeeded(),
{
}

/// A statement that was applied is never a failure: the run succeeds if and
/// only if no result that was taken in was a failure.
pub proof fn lemma_applied_keeps_success(state: PipelineView, rows: nat)
    ensures
        state.after_result(ResultView::Applied(rows)).outcome.succeeded()
            == state.outcome.succeeded(),
        state.after_request().outcome.succeeded() == state.outcome.succeeded(),
{
}

/// How many of the batches from `from` on need a statement.
pub open spec fn sending_from(records: Seq<RecordView>, size: nat, from: nat) -> nat
    decreases batch_count(records.len(), size) - from,
{
    if from >= batch_count(records.len(), size) {
        0
    } else if included(batch_of(records, size, from)).len() > 0 {
        1 + sending_from(records, size, from + 1)
    } else {
        sending_from(records, size, from + 1)
    }
}

/// How many of `results` are failures.
pub open spec fn failed_among(results: Seq<ResultView>) -> nat
    decreases results.len(),
{
    if results.len() == 0 {
        0
    } else if results.first() is Failed {
        1 + failed_among(results.drop_first())
    } else {
        failed_among(results.drop_first())
    }
}

/// How many rows `results` report as affected, all together.
pub open spec fn applied_among(results: Seq<ResultView>) -> nat
    decreases results.len(),
{
    if results.len() == 0 {
        0
    } else {
        (match results.first() {
            ResultView::Applied(rows) => rows,
            ResultView::Failed(_) => 0,
        }) + applied_among(results.drop_first())
    }
}

/// The state that a run is in after it has been driven through `results`:
/// for each of them in turn the next statement was asked for and the result
/// taken in, and then the next statement was asked for once more.
pub open spec fn driven(state: PipelineView, results: Seq<ResultView>) -> PipelineView
    decreases results.len(),
{
    if results.len() == 0 {
        state.after_request()
    } else {
        driven(state.after_request().after_result(results.first()), results.drop_first())
    }
}

/// The records from batch `from` on that have a sale price are those of the
/// next batch that needs a statement and those after that batch.
proof fn lemma_included_from(records: Seq<RecordView>, size: nat, from: nat)
    requires
        size > 0,
        from <= batch_count(records.len(), size),
    ensures
        ({
            let index = next_to_send(records, size, from);
            let rest = included(records.skip(batch_start(records.len(), size, from) as int));
            if index < batch_count(records.len(), size) {
                &&& rest.len() == included(batch_of(records, size, index)).len() + included(
                    records.skip(batch_start(records.len(), size, index + 1) as int),
                ).len()
                &&& sending_from(records, size, from) == 1 + sending_from(
                    records,
                    size,
                    index + 1,
                )
            } else {
                rest.len() == 0 && sending_from(records, size, from) == 0
            }
        }),
    decreases batch_count(records.len(), size) - from,
{
    let len = records.len();
    let passes = |record: RecordView| record.computed_price is Some;
    if from < batch_count(len, size) {
        lemma_batch_bounds(len, size, from);
        let start = batch_start(len, size, from) as int;
        let end = batch_start(len, size, from + 1) as int;
        assert(records.skip(start) =~= batch_of(records, size, from) + records.skip(end));
        Seq::filter_distributes_over_add(batch_of(records, size, from), records.skip(end), passes);
        if included(batch_of(records, size, from)).len() == 0 {
            lemma_included_from(records, size, from + 1);
        }
    } else {
        lemma_batch_count(len, size);
        assert(from * size >= len) by (nonlinear_arith)
            requires
                from >= batch_count(len, size),
                batch_count(len, size) * size >= len,
        ;
        assert(included(Seq::<RecordView>::empty()).len() == 0) by {
            reveal(Seq::filter);
        }
    }
}

/// What a run comes to that no failure ends, from any state in which no
/// result is awaited.
proof fn lemma_driven(state: PipelineView, results: Seq<ResultView>)
    requires
        state.batch_size > 0,
        state.next_batch <= state.batch_total(),
        state.pending is None,
        !state.halted,
        results.len() == sending_from(state.records, state.batch_size, state.next_batch),
        state.policy == FailurePolicy::CollectAll || forall|i: int|
            0 <= i < results.len() ==> results[i] is Applied,
    ensures
        driven(state, results).finished(),
        driven(state, results).next_batch == state.batch_total(),
        driven(state, results).outcome.batches_sent == state.outcome.batches_sent
            + results.len(),
        driven(state, results).outcome.rows_attempted == state.outcome.rows_attempted + included(
            state.records.skip(
                batch_start(state.records.len(), state.batch_size, state.next_batch) as int,
            ),
        ).len(),
        driven(state, results).outcome.rows_applied == state.outcome.rows_applied
            + applied_among(results),
        driven(state, results).outcome.failures.len() == state.outcome.failures.len()
            + failed_among(results),
    decreases results.len(),
{
    let total = state.batch_total();
    lemma_next_to_send(state.records, state.batch_size, state.next_batch);
    lemma_included_from(state.records, state.batch_size, state.next_batch);
    if results.len() > 0 {
        let next = state.after_request().after_result(results.first());
        let rest = results.drop_first();
        assert forall|i: int| 0 <= i < rest.len() && results[i + 1] is Applied implies rest[i]
            is Applied by {}
        lemma_driven(next, rest);
    } else {
        lemma_next_to_send(state.records, state.batch_size, total);
    }
}

/// A run that no failure ends (none of its statements fails, or the policy
/// is to go on) sends one statement for each batch that needs one and then
/// is over.  By then every record that has a sale price has been attempted,
/// once: as many rows as there are such records.  The tally holds the rows
/// that the statements affected, all together, and one failure for each
/// statement that failed.
pub proof fn lemma_run_attempts_every_record(
    records: Seq<RecordView>,
    size: nat,
    policy: FailurePolicy,
    results: Seq<ResultView>,
)
    requires
        size > 0,
        results.len() == sending_from(records, size, 0),
        policy == FailurePolicy::CollectAll || forall|i: int|
            0 <= i < results.len() ==> results[i] is Applied,
    ensures
        driven(PipelineView::start(records, size, policy), results).finished(),
        driven(PipelineView::start(records, size, policy), results).outcome == (OutcomeView {
            batches_sent: results.len(),
            rows_attempted: included(records).len(),
            rows_applied: applied_among(results),
            failures: driven(
                PipelineView::start(records, size, policy),
                results,
            ).outcome.failures,
        }),
        driven(PipelineView::start(records, size, policy), results).outcome.failures.len()
            == failed_among(results),
        driven(PipelineView::start(records, size, policy), results).outcome.succeeded()
            <==> forall|i: int| 0 <= i < results.len() ==> results[i] is Applied,
{
    let state = PipelineView::start(records, size, policy);
    assert(0 * size == 0) by (nonlinear_arith);
    assert(records.skip(0) =~= records);
    lemma_driven(state, results);
    lemma_failed_among(results);
}

/// No result is a failure if and only if all are applied.
proof fn lemma_failed_among(results: Seq<ResultView>)
    ensures
        failed_among(results) == 0 <==> forall|i: int|
            0 <= i < results.len() ==> results[i] is Applied,
    decreases results.len(),
{
    if results.len() > 0 {
        let rest = results.drop_first();
        lemma_failed_among(rest);
        if failed_among(results) == 0 {
            assert forall|i: int| 0 <= i < results.len() implies results[i] is Applied by {
                if i > 0 {
                    assert(rest[i - 1] is Applied);
                }
            }
        } else if results.first() is Applied {
            let i = choose|i: int| 0 <= i < rest.len() && !(rest[i] is Applied);
            assert(!(results[i + 1] is Applied));
        }
    }
}

/// An update run over a list of records.
pub struct Pipeline {
    records: Vec<PriceRecord>,
    batch_size: usize,
    policy: FailurePolicy,
    next_batch: usize,
    pending: Option<usize>,
    halted: bool,
    outcome: RunOutcome,
}

impl View for Pipeline {
    type V = PipelineView;

    closed spec fn view(&self) -> PipelineView {
        PipelineView {
            records: views(self.records@),
            batch_size: self.batch_size as nat,
            policy: self.policy,
            next_batch: self.next_batch as nat,
            pending: match self.pending {
                Some(index) => Some(index as nat),
                None => None,
            },
            halted: self.halted,
            outcome: self.outcome@,
        }
    }
}

impl Pipeline {
    /// Starts a run over `records`, which are sent in batches of at most
    /// `batch_size`, in their order.
    pub fn new(records: Vec<PriceRecord>, batch_size: usize, policy: FailurePolicy) -> (pipeline:
        Pipeline)
        requires
            batch_size > 0,
        ensures
            pipeline@ == PipelineView::start(views(records@), batch_size as nat, policy),
            pipeline@.wf(),
    {
        let pipeline = Pipeline {
            records,
            batch_size,
            policy,
            next_batch: 0,
            pending: None,
            halted: false,
            outcome: RunOutcome {
                batches_sent: 0,
                rows_attempted: 0,
                rows_applied: 0,
                failures: Vec::new(),
            },
        };
        assert(pipeline@.outcome.failures =~= Seq::<FailureView>::empty());
        assert(0 * batch_size == 0) by (nonlinear_arith);
        pipeline
    }

    /// Whether nothing is left to do.
    pub fn is_finished(&self) -> (done: bool)
        requires
            self@.wf(),
        ensures
            done == self@.finished(),
    {
        if self.pending.is_some() {
            return false;
        }
        if self.halted {
            return true;
        }
        let total = count_batches(self.records.len(), self.batch_size);
        let mut index = self.next_batch;
        while index < total
            invariant
                self.pending is None,
                !self.halted,
                self@.wf(),
                total == self@.batch_total(),
                self.next_batch <= index <= total,
                next_to_send(self@.records, self@.batch_size, self@.next_batch) == next_to_send(
                    self@.records,
                    self@.batch_size,
                    index as nat,
                ),
            decreases total - index,
        {
            let (start, end) = batch_range(self.records.len(), self.batch_size, index);
            proof {
                lemma_batch_bounds(
                    self.records.len() as nat,
                    self.batch_size as nat,
                    index as nat,
                );
            }
            if Statement::for_range(&self.records, start, end).is_some() {
                return false;
            }
            index = index + 1;
        }
        true
    }

    /// Hands out the statement to send next, or `None` when there is none:
    /// when the run is over.
    pub fn next_statement(&mut self) -> (statement: Option<Statement>)
        requires
            old(self)@.wf(),
        ensures
            final(self)@.wf(),
            final(self)@ == old(self)@.after_request(),
            match statement {
                Some(statement) => Some(statement@),
                None => None,
            } == old(self)@.statement_due(),
            statement is None <==> old(self)@.finished(),
    {
        let total = count_batches(self.records.len(), self.batch_size);
        if let Some(index) = self.pending {
            let (start, end) = batch_range(self.records.len(), self.batch_size, index);
            proof {
                lemma_batch_bounds(
                    self.records.len() as nat,
                    self.batch_size as nat,
                    index as nat,
                );
            }
            return Statement::for_range(&self.records, start, end);
        }
        if self.halted {
            return None;
        }
        let mut index = self.next_batch;
        while index < total
            invariant
                *self == *old(self),
                self.pending is None,
                !self.halted,
                self@.wf(),
                total == self@.batch_total(),
                self.next_batch <= index <= total,
                next_to_send(self@.records, self@.batch_size, self@.next_batch) == next_to_send(
                    self@.records,
                    self@.batch_size,
                    index as nat,
                ),
            decreases total - index,
        {
            let (start, end) = batch_range(self.records.len(), self.batch_size, index);
            proof {
                lemma_batch_bounds(
                    self.records.len() as nat,
                    self.batch_size as nat,
                    index as nat,
                );
            }
            let built = Statement::for_range(&self.records, start, end);
            if let Some(statement) = built {
                proof {
                    let batch = self@.batch(index as nat);
                    assert(statement@.keys.len() == included(batch).len());
                    batch.lemma_filter_len(|record: RecordView| record.computed_price is Some);
                    lemma_batch_bounds(
                        self.records.len() as nat,
                        self.batch_size as nat,
                        index as nat,
                    );
                    lemma_start_grows(
                        self.records.len() as nat,
                        self.batch_size as nat,
                        self.next_batch as nat,
                        index as nat,
                    );
                }
                self.outcome.rows_attempted = self.outcome.rows_attempted + statement.keys.len();
                self.outcome.batches_sent = self.outcome.batches_sent + 1;
                self.pending = Some(index);
                self.next_batch = index + 1;
                return Some(statement);
            }
            index = index + 1;
        }
        proof {
            lemma_start_grows(
                self.records.len() as nat,
                self.batch_size as nat,
                self.next_batch as nat,
                total as nat,
            );
        }
        self.next_batch = total;
        None
    }

    /// Takes in how the database answered the statement handed out last.
    pub fn record_result(&mut self, result: BatchResult)
        requires
            old(self)@.wf(),
        ensures
            final(self)@.wf(),
            final(self)@ == old(self)@.after_result(result@),
    {
        let index = match self.pending {
            Some(index) => index,
            None => {
                return ;
            },
        };
        let ghost taken = self@.results_taken();
        match result {
            BatchResult::Applied(rows) => {
                proof {
                    assert((taken + 1) * u64::MAX == taken * u64::MAX + u64::MAX)
                        by (nonlinear_arith);
                    assert(taken * u64::MAX <= (usize::MAX - 1) * u64::MAX) by (nonlinear_arith)
                        requires
                            0 <= taken <= usize::MAX - 1,
                    ;
                }
                self.outcome.rows_applied = self.outcome.rows_applied + rows as u128;
                self.pending = None;
            },
            BatchResult::Failed(error) => {
                let (start, end) = batch_range(self.records.len(), self.batch_size, index);
                proof {
                    lemma_batch_bounds(
                        self.records.len() as nat,
                        self.batch_size as nat,
                        index as nat,
                    );
                }
                let keys = match Statement::for_range(&self.records, start, end) {
                    Some(statement) => statement.keys,
                    None => Vec::new(),
                };
                let ghost before = failure_views(self.outcome.failures@);
                let failure = BatchFailure { batch_index: index, keys, error };
                self.outcome.failures.push(failure);
                self.halted = match self.policy {
                    FailurePolicy::FailFast => true,
                    FailurePolicy::CollectAll => false,
                };
                self.pending = None;
                proof {
                    assert(failure_views(self.outcome.failures@) =~= before.push(failure@));
                    assert((taken + 1) * u64::MAX == taken * u64::MAX + u64::MAX)
                        by (nonlinear_arith);
                }
            },
        }
    }

    /// Ends the run and hands out its tally.
    pub fn finish(self) -> (outcome: RunOutcome)
        ensures
            outcome@ == self@.outcome,
    {
        self.outcome
    }
}

/// Later batches start later.
proof fn lemma_start_grows(len: nat, size: nat, earlier: nat, later: nat)
    requires
        earlier <= later,
    ensures
        batch_start(len, size, earlier) <= batch_start(len, size, later),
{
    assert(earlier * size <= later * size) by (nonlinear_arith)
        requires
            earlier <= later,
    ;
}

} // verus!
