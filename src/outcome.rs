//! Outcomes of individual remote calls and the partition of a run's outcomes
//! into timed measurements and failures.

use vstd::prelude::*;

verus! {

/// What one dispatched call produced: its elapsed time on success, or the
/// error text on failure. Durations are nanoseconds of a monotonic clock.
pub enum CallOutcome {
    Success { target: String, elapsed_nanos: u64 },
    Failure { target: String, error: String },
}

/// A successful call's timing: the identifier it was made for and how long
/// it took, in nanoseconds.
pub struct Measurement {
    pub target: String,
    pub elapsed_nanos: u64,
}

impl View for Measurement {
    type V = (Seq<char>, u64);

    open spec fn view(&self) -> (Seq<char>, u64) {
        (self.target@, self.elapsed_nanos)
    }
}

impl CallOutcome {
    pub open spec fn target_view(&self) -> Seq<char> {
        match self {
            CallOutcome::Success { target, .. } => target@,
            CallOutcome::Failure { target, .. } => target@,
        }
    }

    /// The identifier the call was made for.
    pub fn target(&self) -> (r: &String)
        ensures
            r@ == self.target_view(),
    {
        match self {
            CallOutcome::Success { target, .. } => target,
            CallOutcome::Failure { target, .. } => target,
        }
    }

    pub fn is_success(&self) -> (r: bool)
        ensures
            r == self is Success,
    {
        matches!(self, CallOutcome::Success { .. })
    }
}

pub open spec fn is_success(o: CallOutcome) -> bool {
    o is Success
}

/// The measurements kept from a sequence of outcomes: one per success, in
/// the order the outcomes came.
pub open spec fn kept(outs: Seq<CallOutcome>) -> Seq<(Seq<char>, u64)>
    decreases outs.len(),
{
    if outs.len() == 0 {
        Seq::empty()
    } else {
        let rest = kept(outs.drop_last());
        match outs.last() {
            CallOutcome::Success { target, elapsed_nanos } => rest.push((target@, elapsed_nanos)),
            CallOutcome::Failure { .. } => rest,
        }
    }
}

/// How many of the outcomes are failures.
pub open spec fn failures(outs: Seq<CallOutcome>) -> nat
    decreases outs.len(),
{
    if outs.len() == 0 {
        0
    } else {
        failures(outs.drop_last()) + if outs.last() is Failure { 1nat } else { 0nat }
    }
}

pub open spec fn views(ms: Seq<Measurement>) -> Seq<(Seq<char>, u64)> {
    ms.map_values(|m: Measurement| m@)
}

/// Splits outcomes into the measurements of the successful calls, in order,
/// and the number of failed calls.
pub fn filter_outcomes(outcomes: &Vec<CallOutcome>) -> (r: (Vec<Measurement>, usize))
    ensures
        views(r.0@) == kept(outcomes@),
        r.1 == failures(outcomes@),
{
    let mut kept_ms: Vec<Measurement> = Vec::new();
    let mut failed: usize = 0;
    let mut i: usize = 0;
    while i < outcomes.len()
        invariant
            i <= outcomes.len(),
            views(kept_ms@) == kept(outcomes@.take(i as int)),
            failed == failures(outcomes@.take(i as int)),
            failed <= i,
        decreases outcomes.len() - i,
    {
        assert(outcomes@.take(i as int + 1).drop_last() == outcomes@.take(i as int));
        match &outcomes[i] {
            CallOutcome::Success { target, elapsed_nanos } => {
                kept_ms.push(Measurement { target: target.clone(), elapsed_nanos: *elapsed_nanos });
                assert(views(kept_ms@) == kept(outcomes@.take(i as int + 1)));
            },
            CallOutcome::Failure { .. } => {
                failed = failed + 1;
            },
        }
        i = i + 1;
    }
    assert(outcomes@.take(outcomes.len() as int) == outcomes@);
    (kept_ms, failed)
}

/// The sample kept from a run has one measurement per successful outcome:
/// its size is the number of successes, which is the number of outcomes
/// less the failures, and so never more than the number of outcomes.
pub proof fn lemma_sample_size(outs: Seq<CallOutcome>)
    ensures
        kept(outs).len() == outs.filter(|o: CallOutcome| is_success(o)).len(),
        kept(outs).len() + failures(outs) == outs.len(),
        kept(outs).len() <= outs.len(),
    decreases outs.len(),
{
    reveal(Seq::filter);
    if outs.len() > 0 {
        lemma_sample_size(outs.drop_last());
    }
}

/// A failure does not cost any other call its place in the sample: every
/// successful outcome is kept, whatever else failed, so a run with a single
/// failure keeps all of its other calls.
pub proof fn lemma_failure_isolation(outs: Seq<CallOutcome>)
    ensures
        forall|i: int|
            0 <= i < outs.len() && (#[trigger] outs[i]) is Success ==> kept(outs).contains(
                (outs[i]->Success_target@, outs[i]->Success_elapsed_nanos),
            ),
        failures(outs) == 1 ==> kept(outs).len() == outs.len() - 1,
    decreases outs.len(),
{
    lemma_sample_size(outs);
    if outs.len() > 0 {
        let p = outs.drop_last();
        lemma_failure_isolation(p);
        assert forall|i: int|
            0 <= i < outs.len() && (#[trigger] outs[i]) is Success implies kept(outs).contains(
                (outs[i]->Success_target@, outs[i]->Success_elapsed_nanos),
            ) by {
            let x = (outs[i]->Success_target@, outs[i]->Success_elapsed_nanos);
            if i < p.len() {
                assert(p[i] == outs[i]);
                let k = choose|k: int| 0 <= k < kept(p).len() && kept(p)[k] == x;
                if outs.last() is Success {
                    assert(kept(outs)[k] == x);
                }
            } else {
                assert(kept(outs).last() == x);
            }
        }
    }
}

} // verus!
