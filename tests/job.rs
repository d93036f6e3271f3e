use tts::job::{next_step, JobAction, JobEvent, JobState, ProtocolFault, StatusReply, TtsError};

fn request() -> String {
    String::from("{\"engine\":\"google\"}")
}

#[test]
fn created_job_is_polled_at_once() {
    let (state, action) = next_step(JobState::Created, JobEvent::Submitted(Ok("j1".to_string())), &request(), 200);
    assert_eq!(JobState::Pending { id: "j1".to_string() }, state);
    assert_eq!(JobAction::Poll { id: "j1".to_string(), delay_ms: 0 }, action);
}

#[test]
fn failed_submission_fails_the_job() {
    let (state, action) =
        next_step(JobState::Created, JobEvent::Submitted(Err("refused".to_string())), &request(), 200);
    assert_eq!(
        JobState::Failed { error: TtsError::Submission { request: request(), detail: "refused".to_string() } },
        state
    );
    assert_eq!(JobAction::Finish, action);
}

#[test]
fn pending_then_done_waits_once_then_resolves() {
    let pending = JobState::Pending { id: "j1".to_string() };
    let (state, action) = next_step(
        pending,
        JobEvent::Polled {
            body: "{\"status\": \"Pending\"}".to_string(),
            reply: Ok(StatusReply { status: "Pending".to_string(), location: None }),
        },
        &request(),
        200,
    );
    assert_eq!(JobState::Pending { id: "j1".to_string() }, state);
    assert_eq!(JobAction::Poll { id: "j1".to_string(), delay_ms: 200 }, action);
    let (state, action) = next_step(
        state,
        JobEvent::Polled {
            body: "{\"status\": \"Done\", \"location\": \"https://files/a.mp3\"}".to_string(),
            reply: Ok(StatusReply {
                status: "Done".to_string(),
                location: Some("https://files/a.mp3".to_string()),
            }),
        },
        &request(),
        200,
    );
    assert_eq!(JobState::Ready { location: "https://files/a.mp3".to_string() }, state);
    assert_eq!(JobAction::Finish, action);
}

#[test]
fn done_without_location_is_a_protocol_error() {
    let body = "{\"status\": \"Done\"}".to_string();
    let (state, action) = next_step(
        JobState::Pending { id: "j1".to_string() },
        JobEvent::Polled { body: body.clone(), reply: Ok(StatusReply { status: "Done".to_string(), location: None }) },
        &request(),
        200,
    );
    assert_eq!(
        JobState::Failed {
            error: TtsError::Protocol { request: request(), response: body, fault: ProtocolFault::MissingLocation },
        },
        state
    );
    assert_eq!(JobAction::Finish, action);
}

#[test]
fn empty_location_is_a_protocol_error() {
    let body = "{\"status\": \"Done\", \"location\": \"\"}".to_string();
    let (state, _) = next_step(
        JobState::Pending { id: "j1".to_string() },
        JobEvent::Polled {
            body: body.clone(),
            reply: Ok(StatusReply { status: "Done".to_string(), location: Some(String::new()) }),
        },
        &request(),
        200,
    );
    assert_eq!(
        JobState::Failed {
            error: TtsError::Protocol { request: request(), response: body, fault: ProtocolFault::MissingLocation },
        },
        state
    );
}

#[test]
fn undecodable_status_is_a_protocol_error() {
    let (state, _) = next_step(
        JobState::Pending { id: "j1".to_string() },
        JobEvent::Polled { body: "<html>".to_string(), reply: Err("expected value".to_string()) },
        &request(),
        200,
    );
    assert_eq!(
        JobState::Failed {
            error: TtsError::Protocol {
                request: request(),
                response: "<html>".to_string(),
                fault: ProtocolFault::Undecodable("expected value".to_string()),
            },
        },
        state
    );
}

#[test]
fn status_matching_is_exact() {
    let (state, _) = next_step(
        JobState::Pending { id: "j1".to_string() },
        JobEvent::Polled {
            body: String::new(),
            reply: Ok(StatusReply { status: "pending".to_string(), location: Some("u".to_string()) }),
        },
        &request(),
        200,
    );
    assert_eq!(JobState::Ready { location: "u".to_string() }, state);
}

#[test]
fn transport_failure_while_polling_fails_the_job() {
    let (state, action) = next_step(
        JobState::Pending { id: "j1".to_string() },
        JobEvent::PollFailed("timed out".to_string()),
        &request(),
        200,
    );
    assert_eq!(JobState::Failed { error: TtsError::Poll { request: request(), detail: "timed out".to_string() } }, state);
    assert_eq!(JobAction::Finish, action);
}

#[test]
fn resolved_job_ignores_further_events() {
    let ready = JobState::Ready { location: "u".to_string() };
    let (state, action) = next_step(ready.clone(), JobEvent::PollFailed("late".to_string()), &request(), 200);
    assert_eq!(ready, state);
    assert_eq!(JobAction::Finish, action);
}
