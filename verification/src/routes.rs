//! What the HTTP routes decide: for each call, the change of the engine, the
//! status code of the answer and its body.

use vstd::prelude::*;
use crate::api::{
    cancel_message,
    cancel_text,
    invite_not_found_message,
    match_not_found_message,
    status_text,
    AcceptInviteRequest,
    CancelRequest,
    JoinQueueRequest,
    StatusResponse,
};
use crate::clock::now_millis;
use crate::ids::{fresh_id, is_random_uuid};
use crate::model::accept_match;
use crate::service::MatchmakingService;
use crate::types::{
    JoinResponse,
    Match,
    MatchId,
    MatchmakingError,
    RequestId,
    Timestamp,
};

verus! {

pub const HTTP_OK: u16 = 200;

pub const HTTP_BAD_REQUEST: u16 = 400;

pub const HTTP_NOT_FOUND: u16 = 404;

pub const HTTP_INTERNAL_SERVER_ERROR: u16 = 500;

/// A body that tells an outcome in words.
#[derive(Debug, PartialEq, Eq)]
pub struct StatusMessage {
    pub status: String,
}

/// What a route answers: the status code, and as body either what was asked
/// for or an outcome in words.
#[derive(Debug, PartialEq, Eq)]
pub struct Answer<T> {
    pub code: u16,
    pub body: Result<T, StatusMessage>,
}

/// The status code that answers a refusal.
pub open spec fn error_code(error: MatchmakingError) -> u16 {
    match error {
        MatchmakingError::RejectedInput => HTTP_BAD_REQUEST,
        MatchmakingError::NotFound => HTTP_NOT_FOUND,
        MatchmakingError::InvalidTransition => HTTP_NOT_FOUND,
        MatchmakingError::DuplicateId => HTTP_INTERNAL_SERVER_ERROR,
    }
}

/// Whether `answer` tells the refusal `error` with its code and in its words.
pub open spec fn refuses<T>(answer: Answer<T>, error: MatchmakingError) -> bool {
    &&& answer.code == error_code(error)
    &&& answer.body matches Err(message) && message.status@ == error.text()
}

/// The answer to a call that the engine refused with `error`.
pub fn refusal<T>(error: MatchmakingError) -> (answer: Answer<T>)
    ensures
        refuses(answer, error),
{
    let code: u16 = match error {
        MatchmakingError::RejectedInput => HTTP_BAD_REQUEST,
        MatchmakingError::NotFound => HTTP_NOT_FOUND,
        MatchmakingError::InvalidTransition => HTTP_NOT_FOUND,
        MatchmakingError::DuplicateId => HTTP_INTERNAL_SERVER_ERROR,
    };
    Answer { code, body: Err(StatusMessage { status: error.message() }) }
}

/// Joins the player that `req` describes, under a fresh id and at the time
/// the clock shows.
///
/// Answers 200 with the request's id and where it stands; 400, the engine
/// unchanged, if the request may not be admitted; 500 if a fresh id is
/// already taken. No fresh id can be taken, and an admissible request is
/// answered with 200, where no registered request and no stored match has an
/// id of the form of a random UUID and the joining makes one pair at most.
pub fn join_queue(service: &mut MatchmakingService, req: JoinQueueRequest) -> (answer: Answer<
    JoinResponse,
>)
    requires
        old(service).wf(),
    ensures
        final(service).wf(),
        old(service)@.advances_to(final(service)@),
        answer.code == HTTP_BAD_REQUEST <==> (forall|id: RequestId, now: Timestamp|
            !old(service)@.admissible(#[trigger] req.request(id, now))),
        answer.code == HTTP_BAD_REQUEST ==> final(service)@ == old(service)@,
        !old(service)@.holds_random_id() && (forall|id: RequestId, now: Timestamp|
            old(service)@.admissible(req.request(id, now)) && #[trigger] old(
                service,
            )@.join_pairs(req.request(id, now)) <= 1) ==> answer.code == HTTP_OK,
        match answer.body {
            Ok(response) => {
                &&& answer.code == HTTP_OK
                &&& is_random_uuid(response.request_id)
                &&& Some(response.queue_status) == final(service)@.status_of(response.request_id)
                &&& !old(service)@.requests.contains_key(response.request_id)
                &&& exists|now: Timestamp, ids: Seq<MatchId>|
                    {
                        &&& old(service)@.admissible(req.request(response.request_id, now))
                        &&& ids.len() == old(service)@.join_pairs(
                            req.request(response.request_id, now),
                        )
                        &&& final(service)@ == #[trigger] old(service)@.join(
                            req.request(response.request_id, now),
                            ids,
                        )
                    }
            },
            Err(message) => {
                &&& refuses(answer, MatchmakingError::RejectedInput) || refuses(
                    answer,
                    MatchmakingError::DuplicateId,
                )
                &&& answer.code == HTTP_INTERNAL_SERVER_ERROR ==> exists|
                    id: RequestId,
                    now: Timestamp,
                |
                    {
                        &&& is_random_uuid(id)
                        &&& old(service)@.admissible(req.request(id, now))
                        &&& #[trigger] old(service)@.join_stopped(
                            req.request(id, now),
                            final(service)@,
                        )
                    }
            },
        },
{
    let id: RequestId = fresh_id();
    let now: Timestamp = now_millis();
    let ghost before = service@;
    let ghost view = req.request(id, now);
    let request = req.into_match_request(id, now);
    proof {
        assert forall|other: RequestId, then: Timestamp|
            before.admissible(#[trigger] req.request(other, then)) == before.admissible(view) by {}
    }
    proof {
        if before.requests.contains_key(id) || before.holds_random_match() {
            assert(before.holds_random_id()) by {
                if before.requests.contains_key(id) {
                    assert(is_random_uuid(id));
                } else {
                    let taken = choose|taken: MatchId|
                        #[trigger] is_random_uuid(taken) && before.matches.contains_key(taken);
                    assert(is_random_uuid(taken));
                }
            }
        }
        assert(before.join_pairs(req.request(id, now)) == before.join_pairs(view));
    }
    match service.join_queue(request) {
        Ok(response) => {
            proof {
                let ids = choose|ids: Seq<MatchId>|
                    ids.len() == before.join_pairs(view) && service@ == #[trigger] before.join(
                        view,
                        ids,
                    );
                assert(service@ == before.join(req.request(response.request_id, now), ids));
            }
            Answer { code: HTTP_OK, body: Ok(response) }
        },
        Err(error) => {
            proof {
                if error == MatchmakingError::DuplicateId {
                    assert(before.join_stopped(req.request(id, now), service@));
                }
            }
            refusal(error)
        },
    }
}

/// Tells where the request `request_id` stands.
///
/// Answers 200 if the request waits or is matched, 404 if no such request is
/// registered or it was cancelled or has expired; the body tells which, in
/// words, and where the request stands.
pub fn get_status(service: &MatchmakingService, request_id: RequestId) -> (answer: (
    u16,
    StatusResponse,
))
    ensures
        answer.0 == if service@.status_of(request_id).is_some() {
            HTTP_OK
        } else {
            HTTP_NOT_FOUND
        },
        answer.1.queue_status == service@.status_of(request_id),
        answer.1.status@ == status_text(service@.status_of(request_id).is_some()),
{
    let found = service.get_queue_status(request_id);
    let code: u16 = if found.is_some() {
        HTTP_OK
    } else {
        HTTP_NOT_FOUND
    };
    (code, StatusResponse::from_lookup(found))
}

/// Withdraws the request that `req` names.
///
/// Answers 200 if the request waited and is now cancelled, 404, the engine
/// unchanged, if no such request is registered or it is already resolved;
/// the body tells which, in words.
pub fn cancel_request(service: &mut MatchmakingService, req: CancelRequest) -> (answer: (
    u16,
    StatusMessage,
))
    requires
        old(service).wf(),
    ensures
        final(service).wf(),
        old(service)@.advances_to(final(service)@),
        final(service)@ == old(service)@.cancel(req.request_id).0,
        answer.0 == if old(service)@.is_waiting(req.request_id) {
            HTTP_OK
        } else {
            HTTP_NOT_FOUND
        },
        answer.1.status@ == cancel_text(old(service)@.is_waiting(req.request_id)),
{
    let success = service.cancel_request(req.request_id);
    let code: u16 = if success {
        HTTP_OK
    } else {
        HTTP_NOT_FOUND
    };
    (code, StatusMessage { status: cancel_message(success) })
}

/// Resolves the waiting request that `req` names against the player that
/// `req` describes, at the time the clock shows.
///
/// Answers 200 with the match made; 400 if the player's rating is zero; 404
/// if no request of that id is registered or it no longer waits; 500 if a
/// fresh id is already taken, which cannot be where no registered request and
/// no stored match has an id of the form of a random UUID. But for 200 the
/// engine is unchanged.
pub fn accept_invite(service: &mut MatchmakingService, req: AcceptInviteRequest) -> (answer: Answer<
    Match,
>)
    requires
        old(service).wf(),
    ensures
        final(service).wf(),
        old(service)@.advances_to(final(service)@),
        answer.code == HTTP_BAD_REQUEST <==> req.elo == 0,
        answer.code == HTTP_NOT_FOUND <==> req.elo > 0 && !old(service)@.is_waiting(
            req.inviter_request_id,
        ),
        answer.code == HTTP_INTERNAL_SERVER_ERROR ==> old(service)@.holds_random_id(),
        req.elo > 0 && old(service)@.is_waiting(req.inviter_request_id) && !old(
            service,
        )@.holds_random_id() ==> answer.code == HTTP_OK,
        match answer.body {
            Ok(m) => {
                &&& answer.code == HTTP_OK
                &&& is_random_uuid(m.id)
                &&& is_random_uuid(m.request_b)
                &&& m.request_a == req.inviter_request_id
                &&& !old(service)@.requests.contains_key(m.request_b)
                &&& !old(service)@.matches.contains_key(m.id)
                &&& exists|now: Timestamp|
                    {
                        &&& final(service)@ == #[trigger] old(service)@.accept(
                            req.inviter_request_id,
                            req.player(now),
                            m.request_b,
                            m.id,
                        )
                        &&& m@ == accept_match(
                            old(service)@.requests[req.inviter_request_id].request,
                            req.player(now),
                            m.request_b,
                            m.id,
                        )
                    }
            },
            Err(message) => {
                &&& final(service)@ == old(service)@
                &&& answer.code == HTTP_BAD_REQUEST || answer.code == HTTP_NOT_FOUND || answer.code
                    == HTTP_INTERNAL_SERVER_ERROR
                &&& message.status@ == if answer.code == HTTP_BAD_REQUEST {
                    MatchmakingError::RejectedInput.text()
                } else if answer.code == HTTP_NOT_FOUND {
                    "Invite not found"@
                } else {
                    MatchmakingError::DuplicateId.text()
                }
            },
        },
{
    let now: Timestamp = now_millis();
    let inviter: RequestId = req.inviter_request_id;
    let player = req.into_player(now);
    match service.accept_private_invite(inviter, player) {
        Ok(m) => Answer { code: HTTP_OK, body: Ok(m) },
        Err(MatchmakingError::NotFound) => Answer {
            code: HTTP_NOT_FOUND,
            body: Err(StatusMessage { status: invite_not_found_message() }),
        },
        Err(error) => refusal(error),
    }
}

/// Looks the match `match_id` up.
///
/// Answers 200 with the match, or 404, in words, if no match has that id.
pub fn get_match(service: &MatchmakingService, match_id: MatchId) -> (answer: Answer<Match>)
    ensures
        match answer.body {
            Ok(m) => {
                &&& answer.code == HTTP_OK
                &&& service@.matches.contains_key(match_id)
                &&& m@ == service@.matches[match_id]
            },
            Err(message) => {
                &&& answer.code == HTTP_NOT_FOUND
                &&& !service@.matches.contains_key(match_id)
                &&& message.status@ == "Match not found"@
            },
        },
{
    match service.get_match(match_id) {
        Some(m) => Answer { code: HTTP_OK, body: Ok(m) },
        None => Answer {
            code: HTTP_NOT_FOUND,
            body: Err(StatusMessage { status: match_not_found_message() }),
        },
    }
}

} // verus!
