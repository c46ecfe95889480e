use latency_bench::session::{check_step, Action, Event, Phase, Tool, CONNECT_LIMIT_SECS};

/// Runs a check from the start on the given events and returns its actions.
fn run(tool: Tool, events: &[Event]) -> Vec<Action> {
    let mut phase = Phase::Start;
    let mut actions = Vec::new();
    for &event in events {
        if phase == Phase::Done {
            break;
        }
        let (next, action) = check_step(tool, phase, event);
        actions.push(action);
        phase = next;
    }
    actions
}

#[test]
fn healthcheck_success_path() {
    let acts = run(Tool::Healthcheck, &[Event::Succeeded; 4]);
    assert_eq!(
        acts,
        vec![Action::Connect { limit_secs: 5 }, Action::FetchSyncStatus, Action::Finish]
    );
}

#[test]
fn latencycheck_success_path() {
    let acts = run(Tool::Latencycheck, &[Event::Succeeded; 4]);
    assert_eq!(
        acts,
        vec![Action::Connect { limit_secs: 5 }, Action::Disconnect, Action::Finish]
    );
}

#[test]
fn both_tools_limit_the_connect() {
    assert_eq!(CONNECT_LIMIT_SECS, 5);
    for tool in [Tool::Healthcheck, Tool::Latencycheck] {
        assert_eq!(
            check_step(tool, Phase::Start, Event::Succeeded),
            (Phase::Connecting, Action::Connect { limit_secs: 5 })
        );
    }
}

#[test]
fn connect_timeout_exits_with_one() {
    for tool in [Tool::Healthcheck, Tool::Latencycheck] {
        assert_eq!(
            check_step(tool, Phase::Connecting, Event::TimedOut),
            (Phase::Done, Action::ExitWith { code: 1 })
        );
        let acts = run(tool, &[Event::Succeeded, Event::TimedOut, Event::Succeeded]);
        assert_eq!(acts, vec![Action::Connect { limit_secs: 5 }, Action::ExitWith { code: 1 }]);
    }
}

#[test]
fn failed_client_build_never_connects() {
    for tool in [Tool::Healthcheck, Tool::Latencycheck] {
        assert_eq!(run(tool, &[Event::Failed, Event::Succeeded]), vec![Action::Fail]);
        assert_eq!(run(tool, &[Event::TimedOut, Event::Succeeded]), vec![Action::Fail]);
    }
}

#[test]
fn failed_connect_stops_the_run() {
    let acts = run(Tool::Healthcheck, &[Event::Succeeded, Event::Failed, Event::Succeeded]);
    assert_eq!(acts, vec![Action::Connect { limit_secs: 5 }, Action::Fail]);
    let acts = run(Tool::Latencycheck, &[Event::Succeeded, Event::Failed, Event::Succeeded]);
    assert_eq!(acts, vec![Action::Connect { limit_secs: 5 }, Action::Fail]);
}

#[test]
fn failed_last_call_fails_the_check() {
    assert_eq!(
        check_step(Tool::Healthcheck, Phase::Connected, Event::Failed),
        (Phase::Done, Action::Fail)
    );
    assert_eq!(
        check_step(Tool::Latencycheck, Phase::Connected, Event::TimedOut),
        (Phase::Done, Action::Fail)
    );
}

#[test]
fn done_stays_done() {
    assert_eq!(
        check_step(Tool::Healthcheck, Phase::Done, Event::Failed),
        (Phase::Done, Action::Finish)
    );
}
