//! The bounded-concurrency dispatcher, as a state machine: the caller asks
//! which targets may be started now, performs those calls, and reports each
//! call's result back as it arrives. At no point are more than `limit` calls
//! outstanding, and every target ends with exactly one outcome.

use vstd::prelude::*;
use crate::outcome::CallOutcome;
use vstd::arithmetic::div_mod::lemma_mod_add_multiples_vanish;
use vstd::math::min;

verus! {

/// How the dispatcher spends its concurrency budget.
#[derive(Clone, Copy, Debug, PartialEq, Eq, Structural)]
pub enum Schedule {
    /// Consecutive batches of `limit` targets; a batch starts only once
    /// every call of the batch before it has completed.
    Batched,
    /// Up to `limit` calls in flight, a new one starting as soon as any
    /// completes.
    Continuous,
}

#[derive(Clone, Copy, Debug, PartialEq, Eq, Structural)]
pub enum DispatchError {
    /// The concurrency limit must be at least one.
    ZeroLimit,
    /// A result was reported for a call that is not outstanding.
    NotInFlight,
}

pub struct Dispatcher {
    targets: Vec<String>,
    limit: usize,
    schedule: Schedule,
    next: usize,
    in_flight: Vec<usize>,
    completed: Vec<usize>,
    outcomes: Vec<CallOutcome>,
}

/// The abstract state of a dispatcher. Targets are referred to by their
/// position; `next` is the first target not yet started; `completed` lists
/// the finished calls in the order they finished, and `outcomes` their
/// outcomes in the same order.
pub struct DispatchView {
    pub targets: Seq<String>,
    pub limit: nat,
    pub batched: bool,
    pub next: nat,
    pub in_flight: Seq<usize>,
    pub completed: Seq<usize>,
    pub outcomes: Seq<CallOutcome>,
}

impl View for Dispatcher {
    type V = DispatchView;

    closed spec fn view(&self) -> DispatchView {
        DispatchView {
            targets: self.targets@,
            limit: self.limit as nat,
            batched: self.schedule is Batched,
            next: self.next as nat,
            in_flight: self.in_flight@,
            completed: self.completed@,
            outcomes: self.outcomes@,
        }
    }
}

impl DispatchView {
    /// Every started target is either outstanding or completed, never both
    /// and never twice; at most `limit` calls are outstanding; each outcome
    /// belongs to the target it was recorded for; and a batched run starts
    /// targets only at batch boundaries.
    pub open spec fn wf(self) -> bool {
        &&& self.limit >= 1
        &&& self.next <= self.targets.len()
        &&& self.in_flight.len() <= self.limit
        &&& self.in_flight.no_duplicates()
        &&& self.completed.no_duplicates()
        &&& self.completed.len() + self.in_flight.len() == self.next
        &&& forall|i: usize|
            #![trigger self.completed.contains(i)]
            #![trigger self.in_flight.contains(i)]
            (i < self.next <==> (self.completed.contains(i) || self.in_flight.contains(i)))
                && !(self.completed.contains(i) && self.in_flight.contains(i))
        &&& self.outcomes.len() == self.completed.len()
        &&& forall|k: int|
            0 <= k < self.completed.len() ==> #[trigger] self.outcomes[k].target_view()
                == self.targets[self.completed[k] as int]@
        &&& self.batched ==> (self.next % self.limit == 0 || self.next == self.targets.len())
    }

    pub open spec fn finished(self) -> bool {
        self.next == self.targets.len() && self.in_flight.len() == 0
    }

    /// Targets, limit and schedule are those of `other`.
    pub open spec fn same_run(self, other: DispatchView) -> bool {
        self.targets == other.targets && self.limit == other.limit && self.batched == other.batched
    }
}

/// `o` is the outcome of a call on target `t` that returned `result`.
pub open spec fn records(o: CallOutcome, t: Seq<char>, result: Result<u64, String>) -> bool {
    match (o, result) {
        (CallOutcome::Success { target, elapsed_nanos }, Ok(ns)) => target@ == t && elapsed_nanos == ns,
        (CallOutcome::Failure { target, error }, Err(e)) => target@ == t && error@ == e@,
        _ => false,
    }
}

proof fn lemma_remove_no_dup(s: Seq<usize>, p: int)
    requires
        s.no_duplicates(),
        0 <= p < s.len(),
    ensures
        s.remove(p).no_duplicates(),
        forall|i: usize| #[trigger] s.remove(p).contains(i) <==> (s.contains(i) && i != s[p]),
{
    let r = s.remove(p);
    assert forall|a: int, b: int| 0 <= a < r.len() && 0 <= b < r.len() && a != b implies r[a] != r[b] by {
        let sa = if a < p { a } else { a + 1 };
        let sb = if b < p { b } else { b + 1 };
        assert(r[a] == s[sa] && r[b] == s[sb]);
    }
    assert forall|i: usize| #[trigger] r.contains(i) <==> (s.contains(i) && i != s[p]) by {
        if r.contains(i) {
            let a = choose|a: int| 0 <= a < r.len() && r[a] == i;
            let sa = if a < p { a } else { a + 1 };
            assert(s[sa] == i);
        }
        if s.contains(i) && i != s[p] {
            let a = choose|a: int| 0 <= a < s.len() && s[a] == i;
            let ra = if a < p { a } else { a - 1 };
            assert(r[ra] == i);
        }
    }
}

/// The first position of `x` in `v`, if any.
fn position_of(v: &Vec<usize>, x: usize) -> (r: Option<usize>)
    ensures
        r matches Some(p) ==> p < v.len() && v@[p as int] == x,
        r is None <==> !v@.contains(x),
{
    let mut p: usize = 0;
    while p < v.len()
        invariant
            p <= v.len(),
            forall|k: int| 0 <= k < p ==> v@[k] != x,
        decreases v.len() - p,
    {
        if v[p] == x {
            return Some(p);
        }
        p = p + 1;
    }
    None
}

impl Dispatcher {
    /// A dispatcher over `targets` with at most `limit` calls outstanding.
    pub fn new(targets: Vec<String>, limit: usize, schedule: Schedule) -> (r: Result<Dispatcher, DispatchError>)
        ensures
            r is Err <==> limit == 0,
            r matches Err(e) ==> e == DispatchError::ZeroLimit,
            r matches Ok(d) ==> {
                &&& d@.wf()
                &&& d@.targets == targets@
                &&& d@.limit == limit
                &&& d@.batched == (schedule is Batched)
                &&& d@.next == 0
                &&& d@.in_flight.len() == 0
                &&& d@.completed.len() == 0
                &&& d@.outcomes.len() == 0
            },
    {
        if limit == 0 {
            return Err(DispatchError::ZeroLimit);
        }
        let d = Dispatcher {
            targets,
            limit,
            schedule,
            next: 0,
            in_flight: Vec::new(),
            completed: Vec::new(),
            outcomes: Vec::new(),
        };
        proof {
            assert forall|i: usize| !d.completed@.contains(i) && !d.in_flight@.contains(i) by {}
        }
        Ok(d)
    }

    /// Starts every target that the schedule allows now and returns their
    /// positions, in order. A batched run starts a whole batch once nothing
    /// is outstanding; a continuous run fills the free slots.
    pub fn start_ready(&mut self) -> (launched: Vec<usize>)
        requires
            old(self)@.wf(),
        ensures
            final(self)@.wf(),
            final(self)@.same_run(old(self)@),
            final(self)@.completed == old(self)@.completed,
            final(self)@.outcomes == old(self)@.outcomes,
            final(self)@.in_flight == old(self)@.in_flight + launched@,
            launched@.len() == final(self)@.next - old(self)@.next,
            forall|k: int| 0 <= k < launched@.len() ==> launched@[k] == old(self)@.next + k,
            final(self)@.in_flight.len() <= final(self)@.limit,
            old(self)@.batched && launched@.len() > 0 ==> old(self)@.in_flight.len() == 0,
            old(self)@.batched && launched@.len() > 0 ==> old(self)@.next % old(self)@.limit == 0,
            old(self)@.batched && old(self)@.in_flight.len() == 0 ==> final(self)@.next == min(
                old(self)@.next + old(self)@.limit as int,
                old(self)@.targets.len() as int,
            ),
            !old(self)@.batched ==> final(self)@.next == min(
                old(self)@.next + old(self)@.limit - old(self)@.in_flight.len(),
                old(self)@.targets.len() as int,
            ),
            !final(self)@.finished() ==> final(self)@.in_flight.len() > 0,
    {
        let room: usize = match self.schedule {
            Schedule::Batched => if self.in_flight.len() == 0 { self.limit } else { 0 },
            Schedule::Continuous => self.limit - self.in_flight.len(),
        };
        let remaining = self.targets.len() - self.next;
        let k: usize = if room < remaining { room } else { remaining };
        let mut launched: Vec<usize> = Vec::new();
        let mut j: usize = 0;
        while j < k
            invariant
                j <= k,
                self.next + k <= self.targets.len(),
                self.targets == old(self).targets,
                self.limit == old(self).limit,
                self.schedule == old(self).schedule,
                self.next == old(self).next,
                self.completed == old(self).completed,
                self.outcomes == old(self).outcomes,
                self.in_flight@ == old(self).in_flight@ + launched@,
                launched@.len() == j,
                forall|q: int| 0 <= q < j ==> launched@[q] == old(self).next + q,
            decreases k - j,
        {
            let idx = self.next + j;
            launched.push(idx);
            self.in_flight.push(idx);
            j = j + 1;
        }
        let ghost prev = old(self)@;
        self.next = self.next + k;
        proof {
            let cur = self@;
            assert forall|a: int, b: int|
                0 <= a < cur.in_flight.len() && 0 <= b < cur.in_flight.len() && a != b
                implies cur.in_flight[a] != cur.in_flight[b] by {
                let n0 = prev.in_flight.len() as int;
                if a < n0 && b >= n0 {
                    assert(prev.in_flight.contains(cur.in_flight[a]));
                }
                if b < n0 && a >= n0 {
                    assert(prev.in_flight.contains(cur.in_flight[b]));
                }
            }
            assert forall|i: usize|
                #![trigger cur.completed.contains(i)]
                #![trigger cur.in_flight.contains(i)]
                (i < cur.next <==> (cur.completed.contains(i) || cur.in_flight.contains(i)))
                    && !(cur.completed.contains(i) && cur.in_flight.contains(i)) by {
                let n0 = prev.in_flight.len() as int;
                if cur.in_flight.contains(i) {
                    let a = choose|a: int| 0 <= a < cur.in_flight.len() && cur.in_flight[a] == i;
                    if a < n0 {
                        assert(prev.in_flight.contains(i));
                    }
                }
                if prev.in_flight.contains(i) {
                    let a = choose|a: int| 0 <= a < prev.in_flight.len() && prev.in_flight[a] == i;
                    assert(cur.in_flight[a] == i);
                }
                if prev.next <= i < cur.next {
                    assert(cur.in_flight[n0 + (i - prev.next)] == i);
                }
            }
            if prev.batched && k > 0 && cur.next < cur.targets.len() {
                lemma_mod_add_multiples_vanish(prev.next as int, prev.limit as int);
            }
        }
        launched
    }

    /// Records the result of the outstanding call on target `index`: its
    /// elapsed nanoseconds, or the error it failed with. Other outstanding
    /// calls are not affected, whatever the result.
    pub fn complete(&mut self, index: usize, result: Result<u64, String>) -> (r: Result<(), DispatchError>)
        requires
            old(self)@.wf(),
        ensures
            final(self)@.wf(),
            r is Err <==> !old(self)@.in_flight.contains(index),
            r matches Err(e) ==> e == DispatchError::NotInFlight && final(self)@ == old(self)@,
            r is Ok ==> {
                &&& final(self)@.same_run(old(self)@)
                &&& final(self)@.next == old(self)@.next
                &&& final(self)@.completed == old(self)@.completed.push(index)
                &&& final(self)@.outcomes.drop_last() == old(self)@.outcomes
                &&& final(self)@.outcomes.len() == old(self)@.outcomes.len() + 1
                &&& records(final(self)@.outcomes.last(), old(self)@.targets[index as int]@, result)
                &&& exists|p: int|
                    0 <= p < old(self)@.in_flight.len() && old(self)@.in_flight[p] == index
                        && final(self)@.in_flight == old(self)@.in_flight.remove(p)
            },
    {
        let p = match position_of(&self.in_flight, index) {
            Some(p) => p,
            None => return Err(DispatchError::NotInFlight),
        };
        let ghost prev = self@;
        proof {
            lemma_remove_no_dup(prev.in_flight, p as int);
            assert(prev.in_flight.contains(index));
        }
        self.in_flight.remove(p);
        let target = self.targets[index].clone();
        let outcome = match result {
            Ok(ns) => CallOutcome::Success { target, elapsed_nanos: ns },
            Err(e) => CallOutcome::Failure { target, error: e },
        };
        self.outcomes.push(outcome);
        self.completed.push(index);
        proof {
            let cur = self@;
            assert(cur.outcomes.drop_last() == prev.outcomes);
            assert forall|i: usize|
                #![trigger cur.completed.contains(i)]
                #![trigger cur.in_flight.contains(i)]
                (i < cur.next <==> (cur.completed.contains(i) || cur.in_flight.contains(i)))
                    && !(cur.completed.contains(i) && cur.in_flight.contains(i)) by {
                if cur.completed.contains(i) && i != index {
                    let a = choose|a: int| 0 <= a < cur.completed.len() && cur.completed[a] == i;
                    assert(prev.completed[a] == i);
                }
                if prev.completed.contains(i) {
                    let a = choose|a: int| 0 <= a < prev.completed.len() && prev.completed[a] == i;
                    assert(cur.completed[a] == i);
                }
                assert(cur.completed[cur.completed.len() - 1] == index);
            }
            assert forall|a: int, b: int|
                0 <= a < cur.completed.len() && 0 <= b < cur.completed.len() && a != b
                implies cur.completed[a] != cur.completed[b] by {
                let last = cur.completed.len() - 1;
                if a == last {
                    assert(prev.completed.contains(cur.completed[b]));
                }
                if b == last {
                    assert(prev.completed.contains(cur.completed[a]));
                }
            }
            assert forall|k: int| 0 <= k < cur.completed.len() implies #[trigger] cur.outcomes[k].target_view()
                == cur.targets[cur.completed[k] as int]@ by {
                if k < prev.completed.len() {
                    assert(cur.outcomes[k] == prev.outcomes[k]);
                }
            }
        }
        Ok(())
    }

    /// Whether every target has been started and every call has completed.
    pub fn is_finished(&self) -> (r: bool)
        requires
            self@.wf(),
        ensures
            r == self@.finished(),
    {
        self.next == self.targets.len() && self.in_flight.len() == 0
    }

    /// How many calls are outstanding.
    pub fn in_flight_count(&self) -> (r: usize)
        ensures
            r == self@.in_flight.len(),
    {
        self.in_flight.len()
    }

    /// The identifier of target `index`.
    pub fn target(&self, index: usize) -> (r: &String)
        requires
            index < self@.targets.len(),
        ensures
            *r == self@.targets[index as int],
    {
        &self.targets[index]
    }

    /// The outcomes recorded so far, in the order the calls completed.
    pub fn outcomes(&self) -> (r: &Vec<CallOutcome>)
        ensures
            r@ == self@.outcomes,
    {
        &self.outcomes
    }

    /// Ends the run, handing over its outcomes.
    pub fn into_outcomes(self) -> (r: Vec<CallOutcome>)
        ensures
            r@ == self@.outcomes,
    {
        self.outcomes
    }
}

/// Whatever the concurrency limit, a finished run holds exactly one outcome
/// per target: as many outcomes as targets, each recorded for the target
/// at its position in `completed`, and every target completed exactly once.
pub proof fn lemma_one_outcome_per_target(v: DispatchView)
    requires
        v.wf(),
        v.finished(),
    ensures
        v.outcomes.len() == v.targets.len(),
        v.completed.len() == v.targets.len(),
        v.completed.no_duplicates(),
        forall|i: usize| i < v.targets.len() ==> #[trigger] v.completed.contains(i),
        forall|k: int|
            0 <= k < v.outcomes.len() ==> #[trigger] v.outcomes[k].target_view()
                == v.targets[v.completed[k] as int]@,
{
    assert forall|i: usize| i < v.targets.len() implies #[trigger] v.completed.contains(i) by {
        if v.in_flight.contains(i) {
            let a = choose|a: int| 0 <= a < v.in_flight.len() && v.in_flight[a] == i;
        }
    }
}

/// At most `limit` calls are ever outstanding.
pub proof fn lemma_concurrency_bound(v: DispatchView)
    requires
        v.wf(),
    ensures
        v.in_flight.len() <= v.limit,
{
}

} // verus!
