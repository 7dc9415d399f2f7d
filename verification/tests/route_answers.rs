use matchmaking::api::{AcceptInviteRequest, CancelRequest, JoinQueueRequest};
use matchmaking::config::MatchmakingConfig;
use matchmaking::ids::{UUID_FORM_MASK, UUID_RANDOM_FORM};
use matchmaking::routes::{
    accept_invite, cancel_request, get_match, get_status, join_queue, refusal, Answer,
    StatusMessage, HTTP_BAD_REQUEST, HTTP_INTERNAL_SERVER_ERROR, HTTP_NOT_FOUND, HTTP_OK,
};
use matchmaking::service::MatchmakingService;
use matchmaking::types::{
    JoinResponse, Match, MatchType, MatchmakingError, QueueStatus, RequestStatus,
};

fn engine() -> MatchmakingService {
    MatchmakingService::new(MatchmakingConfig::default())
}

fn open_join(wallet: &str, elo: u32, max_diff: Option<u32>) -> JoinQueueRequest {
    JoinQueueRequest {
        wallet_address: wallet.to_string(),
        elo,
        match_type: MatchType::Open,
        invite_address: None,
        max_elo_diff: max_diff,
    }
}

fn invite_join(wallet: &str, elo: u32, target: &str) -> JoinQueueRequest {
    JoinQueueRequest {
        wallet_address: wallet.to_string(),
        elo,
        match_type: MatchType::Invite,
        invite_address: Some(target.to_string()),
        max_elo_diff: None,
    }
}

fn joined(answer: Answer<JoinResponse>) -> JoinResponse {
    assert_eq!(answer.code, HTTP_OK);
    answer.body.expect("joined")
}

fn told(status: &str) -> StatusMessage {
    StatusMessage { status: status.to_string() }
}

fn millis_now() -> i64 {
    chrono::Utc::now().timestamp_millis()
}

#[test]
fn joining_answers_with_a_fresh_id_and_the_place() {
    let mut service = engine();
    let before = millis_now();
    let first = joined(join_queue(&mut service, open_join("0xA", 1500, Some(10))));
    let after = millis_now();
    assert_eq!(first.queue_status, QueueStatus::Waiting { position: 1 });
    assert_eq!(first.request_id & UUID_FORM_MASK, UUID_RANDOM_FORM);
    let record = service.get_request(first.request_id).unwrap();
    assert_eq!(record.request.player.wallet_address, "0xA");
    assert_eq!(record.request.player.elo, 1500);
    assert_eq!(record.request.max_elo_diff, Some(10));
    assert!(before <= record.request.player.join_time);
    assert!(record.request.player.join_time <= after);

    let second = joined(join_queue(&mut service, open_join("0xB", 1900, Some(10))));
    assert_eq!(second.queue_status, QueueStatus::Waiting { position: 2 });
    assert_ne!(first.request_id, second.request_id);
}

#[test]
fn joining_pairs_compatible_players_over_the_routes() {
    let mut service = engine();
    let a = joined(join_queue(&mut service, open_join("0xA", 1500, Some(50))));
    let b = joined(join_queue(&mut service, open_join("0xB", 1540, Some(100))));
    let match_id = match b.queue_status {
        QueueStatus::Matched { match_id } => match_id,
        QueueStatus::Waiting { position } => panic!("waiting at {}", position),
    };
    let answer = get_match(&service, match_id);
    assert_eq!(answer.code, HTTP_OK);
    let made = answer.body.unwrap();
    assert_eq!((made.request_a, made.request_b), (a.request_id, b.request_id));
    assert_eq!(made.player_a.wallet_address, "0xA");
    assert_eq!(made.player_b.wallet_address, "0xB");
    let (code, status) = get_status(&service, a.request_id);
    assert_eq!(code, HTTP_OK);
    assert_eq!(status.status, "In queue");
    assert_eq!(status.queue_status, Some(QueueStatus::Matched { match_id }));
}

#[test]
fn joining_with_bad_input_is_a_bad_request() {
    let mut service = engine();
    let zero = join_queue(&mut service, open_join("0xA", 0, None));
    assert_eq!(zero, Answer { code: HTTP_BAD_REQUEST, body: Err(told("input rejected")) });
    joined(join_queue(&mut service, open_join("0xA", 1500, Some(1))));
    let twice = join_queue(&mut service, open_join("0xA", 1600, Some(1)));
    assert_eq!(twice, Answer { code: HTTP_BAD_REQUEST, body: Err(told("input rejected")) });
    let nameless = JoinQueueRequest {
        wallet_address: "0xC".to_string(),
        elo: 1500,
        match_type: MatchType::Invite,
        invite_address: None,
        max_elo_diff: None,
    };
    assert_eq!(join_queue(&mut service, nameless).code, HTTP_BAD_REQUEST);
    assert_eq!(service.snapshot(MatchType::Open).len(), 1);
    assert!(service.snapshot(MatchType::Invite).is_empty());
}

#[test]
fn a_status_query_answers_found_or_not_found() {
    let mut service = engine();
    let c = joined(join_queue(&mut service, open_join("0xC", 1500, Some(10))));
    let (code, status) = get_status(&service, c.request_id);
    assert_eq!(code, HTTP_OK);
    assert_eq!(status.status, "In queue");
    assert_eq!(status.queue_status, Some(QueueStatus::Waiting { position: 1 }));

    let (code, status) = get_status(&service, c.request_id ^ 1);
    assert_eq!(code, HTTP_NOT_FOUND);
    assert_eq!(status.status, "Request not found");
    assert_eq!(status.queue_status, None);
}

#[test]
fn cancelling_over_the_routes() {
    let mut service = engine();
    let c = joined(join_queue(&mut service, open_join("0xC", 1500, Some(10))));
    let request = CancelRequest { request_id: c.request_id };
    assert_eq!(
        cancel_request(&mut service, request),
        (HTTP_OK, told("Request cancelled successfully"))
    );
    assert_eq!(cancel_request(&mut service, request), (HTTP_NOT_FOUND, told("Request not found")));
    assert_eq!(
        cancel_request(&mut service, CancelRequest { request_id: 3 }),
        (HTTP_NOT_FOUND, told("Request not found"))
    );
    let (code, status) = get_status(&service, c.request_id);
    assert_eq!(code, HTTP_NOT_FOUND);
    assert_eq!(status.status, "Request not found");
    assert_eq!(service.get_request(c.request_id).unwrap().status, RequestStatus::Cancelled);
}

#[test]
fn accepting_an_invite_over_the_routes() {
    let mut service = engine();
    let d = joined(join_queue(&mut service, invite_join("0xD", 1200, "0xE")));
    let unknown = AcceptInviteRequest {
        wallet_address: "0xE".to_string(),
        elo: 2400,
        inviter_request_id: d.request_id ^ 1,
    };
    assert_eq!(
        accept_invite(&mut service, unknown),
        Answer { code: HTTP_NOT_FOUND, body: Err(told("Invite not found")) }
    );
    let unrated = AcceptInviteRequest {
        wallet_address: "0xE".to_string(),
        elo: 0,
        inviter_request_id: d.request_id,
    };
    assert_eq!(
        accept_invite(&mut service, unrated),
        Answer { code: HTTP_BAD_REQUEST, body: Err(told("input rejected")) }
    );

    let before = millis_now();
    let accept = AcceptInviteRequest {
        wallet_address: "0xE".to_string(),
        elo: 2400,
        inviter_request_id: d.request_id,
    };
    let answer: Answer<Match> = accept_invite(&mut service, accept);
    let after = millis_now();
    assert_eq!(answer.code, HTTP_OK);
    let made = answer.body.unwrap();
    assert_eq!(made.request_a, d.request_id);
    assert_eq!(made.player_a.wallet_address, "0xD");
    assert_eq!(made.player_b.wallet_address, "0xE");
    assert_eq!(made.player_b.elo, 2400);
    assert_eq!(made.match_type, MatchType::Invite);
    assert!(before <= made.created_at && made.created_at <= after);
    assert_eq!(made.created_at, made.player_b.join_time);
    assert_eq!(made.id & UUID_FORM_MASK, UUID_RANDOM_FORM);
    assert_eq!(made.request_b & UUID_FORM_MASK, UUID_RANDOM_FORM);

    let replay = AcceptInviteRequest {
        wallet_address: "0xE".to_string(),
        elo: 2400,
        inviter_request_id: d.request_id,
    };
    assert_eq!(
        accept_invite(&mut service, replay),
        Answer { code: HTTP_NOT_FOUND, body: Err(told("Invite not found")) }
    );
    assert_eq!(get_match(&service, made.id).body, Ok(made));
}

#[test]
fn a_match_that_is_not_there_is_not_found() {
    let service = engine();
    assert_eq!(
        get_match(&service, 12),
        Answer { code: HTTP_NOT_FOUND, body: Err(told("Match not found")) }
    );
}

#[test]
fn each_refusal_has_its_code_and_words() {
    let rejected: Answer<u8> = refusal(MatchmakingError::RejectedInput);
    assert_eq!(rejected, Answer { code: 400, body: Err(told("input rejected")) });
    let missing: Answer<u8> = refusal(MatchmakingError::NotFound);
    assert_eq!(missing, Answer { code: 404, body: Err(told("not found")) });
    let resolved: Answer<u8> = refusal(MatchmakingError::InvalidTransition);
    assert_eq!(resolved, Answer { code: 404, body: Err(told("request already resolved")) });
    let taken: Answer<u8> = refusal(MatchmakingError::DuplicateId);
    assert_eq!(taken, Answer { code: HTTP_INTERNAL_SERVER_ERROR, body: Err(told("id already taken")) });
}

#[test]
fn a_sweep_by_the_clock_expires_what_is_stale_now() {
    let quick = MatchmakingConfig { expiry_ms: 0, ..MatchmakingConfig::default() };
    let mut service = MatchmakingService::new(quick);
    let a = joined(join_queue(&mut service, open_join("0xA", 1500, Some(1))));
    let b = joined(join_queue(&mut service, invite_join("0xB", 1500, "0xC")));
    assert_eq!(service.sweep(), vec![a.request_id, b.request_id]);
    assert_eq!(service.get_request(a.request_id).unwrap().status, RequestStatus::Expired);
    assert_eq!(service.sweep(), Vec::<u128>::new());

    let mut patient = engine();
    let c = joined(join_queue(&mut patient, open_join("0xA", 1500, Some(1))));
    assert_eq!(patient.sweep(), Vec::<u128>::new());
    assert_eq!(patient.get_queue_status(c.request_id), Some(QueueStatus::Waiting { position: 1 }));
}
