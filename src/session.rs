//! The decisions of the connection checks. The health check builds a
//! client, connects within a time limit and fetches the node's sync status;
//! the latency check builds a client, connects within the same limit and
//! disconnects. The caller performs each action and reports how it went.

use vstd::prelude::*;

verus! {

/// Seconds allowed for establishing the connection.
pub const CONNECT_LIMIT_SECS: u64 = 5;

/// Exit code of a check whose connection attempt ran out of time.
pub const TIMEOUT_EXIT_CODE: u8 = 1;

#[derive(Clone, Copy, Debug, PartialEq, Eq, Structural)]
pub enum Tool {
    Healthcheck,
    Latencycheck,
}

/// Where a check stands. `Start`: the client is being built; `Connecting`:
/// the connection is being established; `Connected`: the last call (sync
/// status or disconnect) is under way; `Done`: nothing is left to do.
#[derive(Clone, Copy, Debug, PartialEq, Eq, Structural)]
pub enum Phase {
    Start,
    Connecting,
    Connected,
    Done,
}

/// How the action of the previous step went.
#[derive(Clone, Copy, Debug, PartialEq, Eq, Structural)]
pub enum Event {
    Succeeded,
    Failed,
    TimedOut,
}

/// What the caller does next.
#[derive(Clone, Copy, Debug, PartialEq, Eq, Structural)]
pub enum Action {
    /// Establish the connection, giving up after `limit_secs` seconds.
    Connect { limit_secs: u64 },
    /// Fetch and show the node's sync status.
    FetchSyncStatus,
    /// Close the connection.
    Disconnect,
    /// The check succeeded.
    Finish,
    /// The check ends with the error of the last action.
    Fail,
    /// The check ends at once with this exit code.
    ExitWith { code: u8 },
}

/// The next phase and action of `tool`, given the current phase and how
/// the last action went.
pub open spec fn step_spec(tool: Tool, phase: Phase, event: Event) -> (Phase, Action) {
    match (phase, event) {
        (Phase::Start, Event::Succeeded) => (Phase::Connecting, Action::Connect { limit_secs: 5 }),
        (Phase::Connecting, Event::Succeeded) => (
            Phase::Connected,
            if tool is Healthcheck { Action::FetchSyncStatus } else { Action::Disconnect },
        ),
        (Phase::Connecting, Event::TimedOut) => (Phase::Done, Action::ExitWith { code: 1 }),
        (Phase::Connected, Event::Succeeded) => (Phase::Done, Action::Finish),
        (Phase::Done, _) => (Phase::Done, Action::Finish),
        _ => (Phase::Done, Action::Fail),
    }
}

/// One decision of a connection check.
pub fn check_step(tool: Tool, phase: Phase, event: Event) -> (r: (Phase, Action))
    ensures
        r == step_spec(tool, phase, event),
        phase is Start && event is Succeeded ==> r == (Phase::Connecting, Action::Connect { limit_secs: 5 }),
        phase is Start && !(event is Succeeded) ==> r == (Phase::Done, Action::Fail),
        phase is Connecting && event is TimedOut ==> r == (Phase::Done, Action::ExitWith { code: 1 }),
        phase is Connecting && event is Failed ==> r == (Phase::Done, Action::Fail),
        phase is Connecting && event is Succeeded ==> r == (
            Phase::Connected,
            if tool is Healthcheck { Action::FetchSyncStatus } else { Action::Disconnect },
        ),
        phase is Connected && event is Succeeded ==> r == (Phase::Done, Action::Finish),
        phase is Connected && !(event is Succeeded) ==> r == (Phase::Done, Action::Fail),
        phase is Done ==> r == (Phase::Done, Action::Finish),
{
    match (phase, event) {
        (Phase::Start, Event::Succeeded) => (Phase::Connecting, Action::Connect { limit_secs: CONNECT_LIMIT_SECS }),
        (Phase::Connecting, Event::Succeeded) => match tool {
            Tool::Healthcheck => (Phase::Connected, Action::FetchSyncStatus),
            Tool::Latencycheck => (Phase::Connected, Action::Disconnect),
        },
        (Phase::Connecting, Event::TimedOut) => (Phase::Done, Action::ExitWith { code: TIMEOUT_EXIT_CODE }),
        (Phase::Connected, Event::Succeeded) => (Phase::Done, Action::Finish),
        (Phase::Done, _) => (Phase::Done, Action::Finish),
        _ => (Phase::Done, Action::Fail),
    }
}

/// The actions a check takes when its steps see `events` in turn, starting
/// from `phase`; the run stops at `Done`.
pub open spec fn actions(tool: Tool, phase: Phase, events: Seq<Event>) -> Seq<Action>
    decreases events.len(),
{
    if events.len() == 0 || phase is Done {
        Seq::empty()
    } else {
        let (next, act) = step_spec(tool, phase, events[0]);
        seq![act] + actions(tool, next, events.subrange(1, events.len() as int))
    }
}

/// In every run from the start: the first action is a connection attempt
/// with the five-second limit, or a failure if the client could not be
/// built; the sync status is fetched, or the connection closed, only as the
/// action right after a connection attempt that succeeded; the health check
/// never disconnects and the latency check never fetches; and a connection
/// attempt that timed out ends the run with exit code 1.
pub proof fn lemma_check_runs(tool: Tool, events: Seq<Event>)
    requires
        events.len() > 0,
    ensures
        actions(tool, Phase::Start, events)[0] == if events[0] is Succeeded {
            Action::Connect { limit_secs: 5 }
        } else {
            Action::Fail
        },
        forall|k: int|
            0 <= k < actions(tool, Phase::Start, events).len() && (#[trigger] actions(
                tool,
                Phase::Start,
                events,
            )[k] is FetchSyncStatus || actions(tool, Phase::Start, events)[k] is Disconnect) ==> k
                == 1 && actions(tool, Phase::Start, events)[0] is Connect && events[1] is Succeeded,
        forall|k: int|
            0 <= k < actions(tool, Phase::Start, events).len() ==> {
                &&& tool is Healthcheck ==> !(#[trigger] actions(tool, Phase::Start, events)[k] is Disconnect)
                &&& tool is Latencycheck ==> !(actions(tool, Phase::Start, events)[k] is FetchSyncStatus)
            },
        events.len() > 1 && events[0] is Succeeded && events[1] is TimedOut ==> actions(
            tool,
            Phase::Start,
            events,
        ) == seq![Action::Connect { limit_secs: 5 }, Action::ExitWith { code: 1 }],
        actions(tool, Phase::Start, events).len() <= 3,
{
    let a = actions(tool, Phase::Start, events);
    let e1 = events.subrange(1, events.len() as int);
    let (p1, a0) = step_spec(tool, Phase::Start, events[0]);
    assert(a == seq![a0] + actions(tool, p1, e1));
    if p1 is Connecting && e1.len() > 0 {
        let e2 = e1.subrange(1, e1.len() as int);
        let (p2, a1) = step_spec(tool, p1, e1[0]);
        assert(actions(tool, p1, e1) == seq![a1] + actions(tool, p2, e2));
        if p2 is Connected && e2.len() > 0 {
            let e3 = e2.subrange(1, e2.len() as int);
            let (p3, a2) = step_spec(tool, p2, e2[0]);
            assert(actions(tool, p2, e2) == seq![a2] + actions(tool, p3, e3));
            assert(p3 is Done);
            assert(actions(tool, p3, e3) == Seq::<Action>::empty());
            assert(a == seq![a0, a1, a2]);
        } else {
            assert(actions(tool, p2, e2) == Seq::<Action>::empty());
            assert(a == seq![a0, a1]);
        }
    } else {
        assert(actions(tool, p1, e1) == Seq::<Action>::empty());
        assert(a == seq![a0]);
    }
}

} // verus!
