use matchmaking::api::{
    cancel_message, invite_not_found_message, match_not_found_message, websocket_documentation,
    AcceptInviteRequest, CancelRequest, JoinQueueRequest, StatusResponse, WEBSOCKET_DOCUMENTATION,
};
use matchmaking::types::{MatchRequest, MatchType, MatchmakingError, Player, QueueStatus};

#[test]
fn a_join_becomes_a_request_under_the_id_and_time_given() {
    let sent = JoinQueueRequest {
        wallet_address: "0xA".to_string(),
        elo: 1500,
        match_type: MatchType::Invite,
        invite_address: Some("0xB".to_string()),
        max_elo_diff: Some(50),
    };
    let request = sent.into_match_request(42, 1_700_000_000_123);
    assert_eq!(
        request,
        MatchRequest {
            id: 42,
            player: Player {
                wallet_address: "0xA".to_string(),
                elo: 1500,
                join_time: 1_700_000_000_123
            },
            match_type: MatchType::Invite,
            invite_address: Some("0xB".to_string()),
            max_elo_diff: Some(50),
        }
    );
}

#[test]
fn an_acceptance_becomes_the_accepting_player() {
    let sent = AcceptInviteRequest {
        wallet_address: "0xE".to_string(),
        elo: 2400,
        inviter_request_id: 20,
    };
    assert_eq!(sent.inviter_request_id, 20);
    let player = sent.into_player(77);
    assert_eq!(player, Player { wallet_address: "0xE".to_string(), elo: 2400, join_time: 77 });
    assert_eq!(CancelRequest { request_id: 9 }.request_id, 9);
}

#[test]
fn a_status_query_is_answered_in_words() {
    let found = StatusResponse::from_lookup(Some(QueueStatus::Waiting { position: 3 }));
    assert_eq!(found.status, "In queue");
    assert_eq!(found.queue_status, Some(QueueStatus::Waiting { position: 3 }));
    let matched = StatusResponse::from_lookup(Some(QueueStatus::Matched { match_id: 8 }));
    assert_eq!(matched.status, "In queue");
    assert_eq!(matched.queue_status, Some(QueueStatus::Matched { match_id: 8 }));
    let missing = StatusResponse::from_lookup(None);
    assert_eq!(missing.status, "Request not found");
    assert_eq!(missing.queue_status, None);
}

#[test]
fn outcomes_are_told_in_words() {
    assert_eq!(cancel_message(true), "Request cancelled successfully");
    assert_eq!(cancel_message(false), "Request not found");
    assert_eq!(invite_not_found_message(), "Invite not found");
    assert_eq!(match_not_found_message(), "Match not found");
}

#[test]
fn the_websocket_protocol_is_described() {
    let text = websocket_documentation();
    assert_eq!(text, WEBSOCKET_DOCUMENTATION);
    assert!(text.starts_with("\n# WebSocket Protocol Documentation\n\n## Connection\n"));
    assert!(text.contains("ws://hostname:port/ws/game/{game_id}?token={jwt_token}"));
    for event in ["\"type\": \"join\"", "\"type\": \"leave\"", "\"type\": \"move\"",
        "\"type\": \"state_update\"", "\"type\": \"chat\"", "\"type\": \"error\""]
    {
        assert!(text.contains(event));
    }
    assert!(text.contains("\"move\": \"e2e4\", \n"));
    assert!(text.contains("rnbqkbnr/pppp1ppp/8/4p3/4P3/8/PPPP1PPP/RNBQKBNR w KQkq e6 0 2"));
    assert!(text.ends_with("    \"message\": \"string\"\n  }\n}\n```\n"));
    assert_eq!(text.lines().count(), 86);
    assert_eq!(text.len(), 1310);
}

#[test]
fn errors_are_told_in_words() {
    assert_eq!(MatchmakingError::NotFound.message(), "not found");
    assert_eq!(MatchmakingError::InvalidTransition.message(), "request already resolved");
    assert_eq!(MatchmakingError::DuplicateId.message(), "id already taken");
    assert_eq!(MatchmakingError::RejectedInput.message(), "input rejected");
}
