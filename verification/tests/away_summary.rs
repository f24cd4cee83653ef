use codex_thread_tree::away_summary::away_summary_origin;
use codex_thread_tree::away_summary::cancel_away_summary_request;
use codex_thread_tree::away_summary::finish_away_summary_request;
use codex_thread_tree::away_summary::handle_away_summary_notification;
use codex_thread_tree::away_summary::AwaySummaryNotification;
use codex_thread_tree::away_summary::AwaySummaryOutcome;
use codex_thread_tree::away_summary::AwaySummaryRequestState;
use codex_thread_tree::away_summary::AwaySummaryRequests;
use codex_thread_tree::away_summary::MessagePhase;
use codex_thread_tree::away_summary::TurnStatus;

fn answer(text: &str, phase: Option<MessagePhase>) -> AwaySummaryNotification {
    AwaySummaryNotification::AgentMessageCompleted {
        text: text.to_string(),
        phase,
    }
}

fn completed(status: TurnStatus, error: Option<&str>) -> AwaySummaryNotification {
    AwaySummaryNotification::TurnCompleted {
        status,
        error: error.map(str::to_string),
    }
}

fn summary_of(outcome: &AwaySummaryOutcome) -> Option<(u64, &str)> {
    match outcome {
        AwaySummaryOutcome::Completed {
            request_id,
            summary,
        } => Some((*request_id, summary.as_str())),
        _ => None,
    }
}

#[test]
fn final_answer_is_shown_when_turn_completes() {
    let mut state = AwaySummaryRequestState::new(7);
    assert!(!handle_away_summary_notification(
        &mut state,
        &AwaySummaryNotification::TurnStarted {
            turn_id: "turn-a".to_string()
        }
    ));
    assert_eq!(state.turn_id.as_deref(), Some("turn-a"));
    assert!(!handle_away_summary_notification(
        &mut state,
        &answer("You are fixing tests. Next, run them.", Some(MessagePhase::FinalAnswer))
    ));
    assert!(handle_away_summary_notification(
        &mut state,
        &completed(TurnStatus::Completed, None)
    ));
    let outcome = finish_away_summary_request(state);
    assert_eq!(
        summary_of(&outcome),
        Some((7, "You are fixing tests. Next, run them."))
    );
}

#[test]
fn commentary_is_not_an_answer() {
    let mut state = AwaySummaryRequestState::new(1);
    handle_away_summary_notification(&mut state, &answer("thinking", Some(MessagePhase::Commentary)));
    assert_eq!(state.response, None);
    handle_away_summary_notification(&mut state, &answer("no phase", None));
    assert_eq!(state.response.as_deref(), Some("no phase"));
}

#[test]
fn blank_answer_is_dismissed() {
    let mut state = AwaySummaryRequestState::new(2);
    handle_away_summary_notification(&mut state, &answer(" \n\t ", None));
    assert!(matches!(
        finish_away_summary_request(state),
        AwaySummaryOutcome::Dismissed { request_id: 2 }
    ));
    assert!(matches!(
        finish_away_summary_request(AwaySummaryRequestState::new(4)),
        AwaySummaryOutcome::Dismissed { request_id: 4 }
    ));
}

#[test]
fn error_wins_over_answer() {
    let mut state = AwaySummaryRequestState::new(3);
    handle_away_summary_notification(&mut state, &answer("text", None));
    handle_away_summary_notification(
        &mut state,
        &AwaySummaryNotification::Error {
            message: "stream broke".to_string(),
        },
    );
    match finish_away_summary_request(state) {
        AwaySummaryOutcome::Failed { request_id, error } => {
            assert_eq!(request_id, 3);
            assert_eq!(error, "stream broke");
        }
        other => panic!("unexpected outcome {other:?}"),
    }
}

#[test]
fn failed_turn_records_its_error() {
    let mut state = AwaySummaryRequestState::new(5);
    assert!(handle_away_summary_notification(
        &mut state,
        &completed(TurnStatus::Failed, Some("quota"))
    ));
    assert_eq!(state.error.as_deref(), Some("quota"));

    let mut other = AwaySummaryRequestState::new(6);
    handle_away_summary_notification(&mut other, &completed(TurnStatus::Interrupted, Some("ignored")));
    assert_eq!(other.error, None);
}

#[test]
fn cancelled_request_shows_nothing() {
    let mut state = AwaySummaryRequestState::new(8);
    handle_away_summary_notification(
        &mut state,
        &AwaySummaryNotification::TurnStarted {
            turn_id: "t".to_string(),
        },
    );
    handle_away_summary_notification(&mut state, &answer("early", None));
    assert_eq!(cancel_away_summary_request(&mut state).as_deref(), Some("t"));
    assert_eq!(state.response, None);
    handle_away_summary_notification(&mut state, &answer("late", None));
    handle_away_summary_notification(
        &mut state,
        &AwaySummaryNotification::Error {
            message: "late error".to_string(),
        },
    );
    assert!(handle_away_summary_notification(
        &mut state,
        &AwaySummaryNotification::ThreadClosed
    ));
    assert!(matches!(
        finish_away_summary_request(state),
        AwaySummaryOutcome::Dismissed { request_id: 8 }
    ));
}

#[test]
fn requests_are_found_by_thread() {
    let mut requests = AwaySummaryRequests::new();
    let fork = "thread-1".to_string();
    let other = "thread-2".to_string();
    requests.insert(fork.clone(), AwaySummaryRequestState::new(10));
    requests.set_turn_id(&fork, "turn-x".to_string());
    assert_eq!(
        requests.get(&fork).and_then(|s| s.turn_id.as_deref()),
        Some("turn-x")
    );
    let (handled, outcome) = requests.handle_thread_notification(&other, &AwaySummaryNotification::ThreadClosed);
    assert!(!handled);
    assert!(outcome.is_none());

    let (handled, outcome) = requests.handle_thread_notification(&fork, &answer("Recap.", None));
    assert!(handled);
    assert!(outcome.is_none());
    let (handled, outcome) = requests.handle_thread_notification(
        &fork,
        &completed(TurnStatus::Completed, None),
    );
    assert!(handled);
    assert_eq!(summary_of(&outcome.unwrap()), Some((10, "Recap.")));
    assert!(requests.get(&fork).is_none());
}

#[test]
fn failed_turn_start_finishes_the_request() {
    let mut requests = AwaySummaryRequests::new();
    let fork = "fork".to_string();
    requests.insert(fork.clone(), AwaySummaryRequestState::new(12));
    assert_eq!(requests.turn_start_failed(&fork), Some(12));
    assert_eq!(requests.turn_start_failed(&fork), None);
    assert!(requests.remove(&fork).is_none());
}

#[test]
fn insert_replaces_the_thread_request() {
    let mut requests = AwaySummaryRequests::new();
    let fork = "fork".to_string();
    requests.insert(fork.clone(), AwaySummaryRequestState::new(1));
    requests.insert(fork.clone(), AwaySummaryRequestState::new(2));
    assert_eq!(requests.remove(&fork).map(|s| s.request_id), Some(2));
    assert!(requests.get(&fork).is_none());
}

#[test]
fn cancel_all_interrupts_known_turns() {
    let mut requests = AwaySummaryRequests::new();
    requests.insert("a".to_string(), AwaySummaryRequestState::new(1));
    requests.insert("b".to_string(), AwaySummaryRequestState::new(2));
    requests.set_turn_id(&"b".to_string(), "turn-b".to_string());
    requests.handle_thread_notification(&"a".to_string(), &answer("partial", None));
    let interrupts = requests.cancel_all();
    assert_eq!(interrupts, vec![("b".to_string(), "turn-b".to_string())]);
    let a = requests.get(&"a".to_string()).unwrap();
    assert!(a.cancelled);
    assert_eq!(a.response, None);
    let (_, outcome) = requests.handle_thread_notification(
        &"a".to_string(),
        &completed(TurnStatus::Completed, None),
    );
    assert!(matches!(
        outcome,
        Some(AwaySummaryOutcome::Dismissed { request_id: 1 })
    ));
}

#[test]
fn start_steps_pick_origin_record_fork_and_note_turn() {
    assert_eq!(
        away_summary_origin(Some("active".to_string()), Some("chat".to_string())).as_deref(),
        Some("active")
    );
    assert_eq!(
        away_summary_origin(None, Some("chat".to_string())).as_deref(),
        Some("chat")
    );
    assert_eq!(away_summary_origin(None, None), None);

    let mut requests = AwaySummaryRequests::new();
    assert_eq!(requests.fork_finished(3, Err("no server".to_string())), None);
    let fork = requests
        .fork_finished(4, Ok("fork-4".to_string()))
        .unwrap();
    assert_eq!(fork, "fork-4");
    assert_eq!(requests.get(&fork).map(|s| s.request_id), Some(4));
    assert_eq!(
        requests.turn_start_finished(&fork, Ok("turn-4".to_string())),
        None
    );
    assert_eq!(
        requests.get(&fork).and_then(|s| s.turn_id.as_deref()),
        Some("turn-4")
    );

    let other = requests
        .fork_finished(5, Ok("fork-5".to_string()))
        .unwrap();
    assert_eq!(
        requests.turn_start_finished(&other, Err("refused".to_string())),
        Some(5)
    );
    assert!(requests.get(&other).is_none());
}
