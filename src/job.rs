use vstd::prelude::*;

verus! {

/// Why the service's answer to a status request cannot be used.
#[derive(Debug, Clone, PartialEq, Eq)]
pub enum ProtocolFault {
    /// The body does not decode as a status reply; holds the decoder's message.
    Undecodable(String),
    /// The job is no longer pending, yet the reply names no location.
    MissingLocation,
}

/// What makes one chunk's rendering job fail.
#[derive(Debug, Clone, PartialEq, Eq)]
pub enum TtsError {
    /// Sending the creation request, or decoding its answer, failed.
    Submission { request: String, detail: String },
    /// A status request failed in transport.
    Poll { request: String, detail: String },
    /// The service answered a status request with a body that cannot be
    /// decoded or that contradicts itself.
    Protocol { request: String, response: String, fault: ProtocolFault },
}

/// A decoded answer to a status request.
#[derive(Debug, Clone, PartialEq, Eq)]
pub struct StatusReply {
    pub status: String,
    pub location: Option<String>,
}

/// Where a job stands.
#[derive(Debug, Clone, PartialEq, Eq)]
pub enum JobState {
    /// Nothing has been sent yet.
    Created,
    /// The service accepted the job under `id` and has not resolved it yet.
    Pending { id: String },
    /// The rendered audio is at `location`.
    Ready { location: String },
    /// The job failed and will not be retried.
    Failed { error: TtsError },
}

/// What the outside world reports back to a job.
#[derive(Debug, PartialEq, Eq)]
pub enum JobEvent {
    /// The answer to the creation request: the job's id, or what went wrong
    /// in sending the request or decoding its answer.
    Submitted(Result<String, String>),
    /// A status request was answered with `body`, which decoded into `reply`
    /// or failed to decode with the given message.
    Polled { body: String, reply: Result<StatusReply, String> },
    /// A status request failed in transport.
    PollFailed(String),
}

/// What the job asks the outside world to do next.
#[derive(Debug, Clone, PartialEq, Eq)]
pub enum JobAction {
    /// Send the creation request.
    Submit,
    /// Wait `delay_ms` milliseconds, then ask for the status of job `id`.
    Poll { id: String, delay_ms: u64 },
    /// The job is resolved; nothing more to do.
    Finish,
}

/// The status the service reports while it is still rendering.
pub open spec fn is_pending(status: Seq<char>) -> bool {
    status == "Pending"@
}

/// A location that the service really gave: present and non-empty.
pub open spec fn has_location(location: Option<String>) -> bool {
    location matches Some(l) && l@.len() > 0
}

/// The action that a state asks for when nothing new has happened.
pub open spec fn action_owed(state: JobState) -> JobAction {
    match state {
        JobState::Created => JobAction::Submit,
        JobState::Pending { id } => JobAction::Poll { id, delay_ms: 0 },
        _ => JobAction::Finish,
    }
}

/// The state a job moves to on a status answer while pending under `id`.
pub open spec fn after_poll(
    id: String,
    request: String,
    body: String,
    reply: Result<StatusReply, String>,
) -> JobState {
    match reply {
        Err(message) => JobState::Failed {
            error: TtsError::Protocol { request, response: body, fault: ProtocolFault::Undecodable(message) },
        },
        Ok(r) => if is_pending(r.status@) {
            JobState::Pending { id }
        } else if has_location(r.location) {
            JobState::Ready { location: r.location->0 }
        } else {
            JobState::Failed {
                error: TtsError::Protocol { request, response: body, fault: ProtocolFault::MissingLocation },
            }
        },
    }
}

/// One transition of a rendering job: the creation request yields an id or a
/// submission error; each status answer leaves the job pending, resolves it
/// to a location, or fails it; a transport failure while polling fails it.
/// An event that does not fit the state leaves the state as it is.
pub open spec fn step(state: JobState, event: JobEvent, request: String) -> JobState {
    match (state, event) {
        (JobState::Created, JobEvent::Submitted(Ok(id))) => JobState::Pending { id },
        (JobState::Created, JobEvent::Submitted(Err(detail))) => JobState::Failed {
            error: TtsError::Submission { request, detail },
        },
        (JobState::Pending { id }, JobEvent::Polled { body, reply }) => after_poll(id, request, body, reply),
        (JobState::Pending { id }, JobEvent::PollFailed(detail)) => JobState::Failed {
            error: TtsError::Poll { request, detail },
        },
        (s, _) => s,
    }
}

/// The action after a transition from `before` to `after`: a job that stays
/// pending is polled again after `poll_interval_ms`, one that has just been
/// accepted is polled at once, and any other state asks for what it owes.
pub open spec fn next_action(before: JobState, after: JobState, poll_interval_ms: u64) -> JobAction {
    if before is Pending && after is Pending {
        JobAction::Poll { id: after->Pending_id, delay_ms: poll_interval_ms }
    } else {
        action_owed(after)
    }
}

fn is_pending_status(status: &String) -> (r: bool)
    ensures
        r == is_pending(status@),
{
    let pending = "Pending".to_string();
    *status == pending
}

fn settle_poll(
    id: String,
    request: String,
    body: String,
    reply: Result<StatusReply, String>,
) -> (r: JobState)
    ensures
        r == after_poll(id, request, body, reply),
{
    match reply {
        Err(message) => JobState::Failed {
            error: TtsError::Protocol { request, response: body, fault: ProtocolFault::Undecodable(message) },
        },
        Ok(r) => {
            if is_pending_status(&r.status) {
                JobState::Pending { id }
            } else {
                match r.location {
                    Some(location) => {
                        if location.as_str().unicode_len() > 0 {
                            JobState::Ready { location }
                        } else {
                            JobState::Failed {
                                error: TtsError::Protocol {
                                    request,
                                    response: body,
                                    fault: ProtocolFault::MissingLocation,
                                },
                            }
                        }
                    },
                    None => JobState::Failed {
                        error: TtsError::Protocol { request, response: body, fault: ProtocolFault::MissingLocation },
                    },
                }
            }
        },
    }
}

/// Advances a job by one event and says what to do next. `request` is the
/// creation request as sent, kept in errors for diagnosis.
pub fn next_step(state: JobState, event: JobEvent, request: &String, poll_interval_ms: u64) -> (r: (
    JobState,
    JobAction,
))
    ensures
        r.0 == step(state, event, *request),
        r.1 == next_action(state, r.0, poll_interval_ms),
{
    let was_pending = matches!(state, JobState::Pending { .. });
    let after = match (state, event) {
        (JobState::Created, JobEvent::Submitted(Ok(id))) => JobState::Pending { id },
        (JobState::Created, JobEvent::Submitted(Err(detail))) => JobState::Failed {
            error: TtsError::Submission { request: request.clone(), detail },
        },
        (JobState::Pending { id }, JobEvent::Polled { body, reply }) => settle_poll(
            id,
            request.clone(),
            body,
            reply,
        ),
        (JobState::Pending { id: _ }, JobEvent::PollFailed(detail)) => JobState::Failed {
            error: TtsError::Poll { request: request.clone(), detail },
        },
        (s, _) => s,
    };
    let action = match &after {
        JobState::Created => JobAction::Submit,
        JobState::Pending { id } => JobAction::Poll {
            id: id.clone(),
            delay_ms: if was_pending {
                poll_interval_ms
            } else {
                0
            },
        },
        _ => JobAction::Finish,
    };
    (after, action)
}

} // verus!
