use matchmaking::config::MatchmakingConfig;
use matchmaking::ids::{UUID_FORM_MASK, UUID_RANDOM_FORM};
use matchmaking::service::MatchmakingService;
use matchmaking::types::{
    JoinResponse, MatchRequest, MatchType, MatchmakingError, Player, QueueStatus, RequestStatus,
};

const T0: i64 = 1_700_000_000_000;

fn open_request(id: u128, wallet: &str, elo: u32, max_diff: Option<u32>, at: i64) -> MatchRequest {
    MatchRequest {
        id,
        player: Player { wallet_address: wallet.to_string(), elo, join_time: at },
        match_type: MatchType::Open,
        invite_address: None,
        max_elo_diff: max_diff,
    }
}

fn invite_request(id: u128, wallet: &str, elo: u32, target: &str, at: i64) -> MatchRequest {
    MatchRequest {
        id,
        player: Player { wallet_address: wallet.to_string(), elo, join_time: at },
        match_type: MatchType::Invite,
        invite_address: Some(target.to_string()),
        max_elo_diff: None,
    }
}

fn player(wallet: &str, elo: u32, at: i64) -> Player {
    Player { wallet_address: wallet.to_string(), elo, join_time: at }
}

fn matched_id(response: &JoinResponse) -> u128 {
    match response.queue_status {
        QueueStatus::Matched { match_id } => match_id,
        QueueStatus::Waiting { position } => panic!("still waiting at position {}", position),
    }
}

#[test]
fn two_compatible_players_are_paired_at_once() {
    let mut service = MatchmakingService::new(MatchmakingConfig::default());
    let a = service.join_queue(open_request(1, "0xA", 1500, Some(50), T0)).unwrap();
    assert_eq!(a.request_id, 1);
    assert_eq!(a.queue_status, QueueStatus::Waiting { position: 1 });

    let b = service.join_queue(open_request(2, "0xB", 1540, Some(100), T0 + 2_000)).unwrap();
    assert_eq!(b.request_id, 2);
    let match_id = matched_id(&b);

    let made = service.get_match(match_id).expect("the match is stored");
    assert_eq!(made.id, match_id);
    assert_eq!(made.request_a, 1);
    assert_eq!(made.request_b, 2);
    assert_eq!(made.player_a.wallet_address, "0xA");
    assert_eq!(made.player_b.wallet_address, "0xB");
    assert_eq!(made.player_a.elo, 1500);
    assert_eq!(made.player_b.elo, 1540);
    assert_eq!(made.match_type, MatchType::Open);
    assert_eq!(made.created_at, T0 + 2_000);

    assert_eq!(service.get_queue_status(1), Some(QueueStatus::Matched { match_id }));
    assert_eq!(service.get_queue_status(2), Some(QueueStatus::Matched { match_id }));
    assert!(service.snapshot(MatchType::Open).is_empty());
}

#[test]
fn a_lone_player_waits_and_a_cancelled_request_is_never_matched() {
    let mut service = MatchmakingService::new(MatchmakingConfig::default());
    let c = service.join_queue(open_request(7, "0xC", 1500, Some(10), T0)).unwrap();
    assert_eq!(c.queue_status, QueueStatus::Waiting { position: 1 });
    assert_eq!(service.get_queue_status(7), Some(QueueStatus::Waiting { position: 1 }));

    assert!(service.cancel_request(7));
    assert_eq!(service.get_queue_status(7), None);
    let record = service.get_request(7).expect("the record is kept");
    assert_eq!(record.status, RequestStatus::Cancelled);
    assert_eq!(record.match_id, None);

    let d = service.join_queue(open_request(8, "0xD", 1500, Some(10), T0 + 1_000)).unwrap();
    assert_eq!(d.queue_status, QueueStatus::Waiting { position: 1 });
    assert_eq!(service.get_queue_status(7), None);
    assert_eq!(service.get_request(7).unwrap().status, RequestStatus::Cancelled);
    let waiting = service.snapshot(MatchType::Open);
    assert_eq!(waiting.len(), 1);
    assert_eq!(waiting[0].id, 8);
}

#[test]
fn an_invite_is_accepted_once_whatever_the_ratings() {
    let mut service = MatchmakingService::new(MatchmakingConfig::default());
    let d = service.join_queue(invite_request(20, "0xD", 1200, "0xE", T0)).unwrap();
    assert_eq!(d.queue_status, QueueStatus::Waiting { position: 1 });

    let made = service.accept_private_invite(20, player("0xE", 2400, T0 + 5_000)).unwrap();
    assert_eq!(made.request_a, 20);
    assert_eq!(made.player_a.wallet_address, "0xD");
    assert_eq!(made.player_b.wallet_address, "0xE");
    assert_eq!(made.player_b.elo, 2400);
    assert_eq!(made.match_type, MatchType::Invite);
    assert_eq!(made.created_at, T0 + 5_000);
    assert_eq!(service.get_match(made.id), Some(made.clone()));
    assert_eq!(service.get_queue_status(20), Some(QueueStatus::Matched { match_id: made.id }));
    assert_eq!(
        service.get_queue_status(made.request_b),
        Some(QueueStatus::Matched { match_id: made.id })
    );
    let answer = service.get_request(made.request_b).unwrap();
    assert_eq!(answer.request.match_type, MatchType::Invite);
    assert_eq!(answer.request.invite_address, Some("0xD".to_string()));
    assert!(service.snapshot(MatchType::Invite).is_empty());

    let again = service.accept_private_invite(20, player("0xE", 2400, T0 + 6_000));
    assert_eq!(again, Err(MatchmakingError::NotFound));
}

#[test]
fn fresh_ids_are_random_uuids_and_differ() {
    let mut service = MatchmakingService::new(MatchmakingConfig::default());
    service.join_queue(invite_request(1, "0xD", 1200, "0xE", T0)).unwrap();
    service.join_queue(invite_request(2, "0xF", 1200, "0xG", T0)).unwrap();
    let first = service.accept_private_invite(1, player("0xE", 1300, T0 + 1)).unwrap();
    let second = service.accept_private_invite(2, player("0xG", 1300, T0 + 2)).unwrap();
    for id in [first.id, first.request_b, second.id, second.request_b] {
        assert_eq!(id & UUID_FORM_MASK, UUID_RANDOM_FORM);
        let text = uuid::Uuid::from_u128(id);
        assert_eq!(text.get_version_num(), 4);
    }
    assert_ne!(first.id, second.id);
    assert_ne!(first.request_b, second.request_b);
    assert_ne!(first.id, first.request_b);
}

#[test]
fn cancelling_twice_takes_effect_once() {
    let mut service = MatchmakingService::new(MatchmakingConfig::default());
    service.join_queue(open_request(5, "0xA", 1500, None, T0)).unwrap();
    assert!(service.cancel_request(5));
    assert!(!service.cancel_request(5));
    assert!(!service.cancel_request(6));
}

#[test]
fn cancelling_a_matched_request_is_refused() {
    let mut service = MatchmakingService::new(MatchmakingConfig::default());
    service.join_queue(open_request(1, "0xA", 1500, None, T0)).unwrap();
    let b = service.join_queue(open_request(2, "0xB", 1500, None, T0)).unwrap();
    let match_id = matched_id(&b);
    assert!(!service.cancel_request(1));
    assert!(!service.cancel_request(2));
    assert_eq!(service.get_queue_status(1), Some(QueueStatus::Matched { match_id }));
}

#[test]
fn a_matched_request_is_not_matched_again() {
    let mut service = MatchmakingService::new(MatchmakingConfig::default());
    service.join_queue(open_request(1, "0xA", 1500, None, T0)).unwrap();
    let b = service.join_queue(open_request(2, "0xB", 1500, None, T0 + 1)).unwrap();
    let first = matched_id(&b);
    let c = service.join_queue(open_request(3, "0xC", 1500, None, T0 + 2)).unwrap();
    assert_eq!(c.queue_status, QueueStatus::Waiting { position: 1 });
    let d = service.join_queue(open_request(4, "0xD", 1500, None, T0 + 3)).unwrap();
    let second = matched_id(&d);
    assert_ne!(first, second);
    let m1 = service.get_match(first).unwrap();
    let m2 = service.get_match(second).unwrap();
    assert_eq!((m1.request_a, m1.request_b), (1, 2));
    assert_eq!((m2.request_a, m2.request_b), (3, 4));
    assert_eq!(service.get_request(1).unwrap().match_id, Some(first));
    assert_eq!(service.get_request(3).unwrap().match_id, Some(second));
}

#[test]
fn pools_hold_exactly_the_waiting_requests() {
    let mut service = MatchmakingService::new(MatchmakingConfig::default());
    service.join_queue(open_request(1, "0xA", 1000, Some(10), T0)).unwrap();
    service.join_queue(open_request(2, "0xB", 2000, Some(10), T0 + 1)).unwrap();
    service.join_queue(open_request(3, "0xC", 3000, Some(10), T0 + 2)).unwrap();
    service.join_queue(invite_request(4, "0xD", 1000, "0xZ", T0 + 3)).unwrap();
    service.join_queue(open_request(5, "0xE", 2005, Some(10), T0 + 4)).unwrap();
    assert!(service.cancel_request(1));

    let open: Vec<u128> = service.snapshot(MatchType::Open).iter().map(|r| r.id).collect();
    let invites: Vec<u128> = service.snapshot(MatchType::Invite).iter().map(|r| r.id).collect();
    assert_eq!(open, vec![3]);
    assert_eq!(invites, vec![4]);
    for id in 1..=5u128 {
        let waits = service.get_request(id).unwrap().status == RequestStatus::Waiting;
        assert_eq!(waits, open.contains(&id) || invites.contains(&id));
    }
    assert_eq!(service.get_request(2).unwrap().status, RequestStatus::Matched);
    assert_eq!(service.get_request(5).unwrap().status, RequestStatus::Matched);
    assert_eq!(service.get_queue_status(3), Some(QueueStatus::Waiting { position: 1 }));
    assert_eq!(service.get_queue_status(4), Some(QueueStatus::Waiting { position: 1 }));
}

#[test]
fn a_rating_of_zero_is_rejected() {
    let mut service = MatchmakingService::new(MatchmakingConfig::default());
    let outcome = service.join_queue(open_request(1, "0xA", 0, None, T0));
    assert_eq!(outcome, Err(MatchmakingError::RejectedInput));
    assert_eq!(service.get_request(1), None);
    assert!(service.snapshot(MatchType::Open).is_empty());
}

#[test]
fn an_invite_must_name_a_counterpart_and_an_open_request_must_not() {
    let mut service = MatchmakingService::new(MatchmakingConfig::default());
    let mut nameless = invite_request(1, "0xA", 1500, "0xB", T0);
    nameless.invite_address = None;
    assert_eq!(service.join_queue(nameless), Err(MatchmakingError::RejectedInput));
    let mut named = open_request(2, "0xA", 1500, None, T0);
    named.invite_address = Some("0xB".to_string());
    assert_eq!(service.join_queue(named), Err(MatchmakingError::RejectedInput));
    assert_eq!(service.get_request(1), None);
    assert_eq!(service.get_request(2), None);
}

#[test]
fn a_wallet_waits_with_one_request_only() {
    let mut service = MatchmakingService::new(MatchmakingConfig::default());
    service.join_queue(open_request(1, "0xA", 1500, Some(10), T0)).unwrap();
    let second = service.join_queue(open_request(2, "0xA", 1700, Some(10), T0 + 1));
    assert_eq!(second, Err(MatchmakingError::RejectedInput));
    let third = service.join_queue(invite_request(3, "0xA", 1700, "0xB", T0 + 2));
    assert_eq!(third, Err(MatchmakingError::RejectedInput));
    assert!(service.cancel_request(1));
    let fourth = service.join_queue(open_request(4, "0xA", 1700, Some(10), T0 + 3)).unwrap();
    assert_eq!(fourth.queue_status, QueueStatus::Waiting { position: 1 });
}

#[test]
fn an_id_is_registered_once() {
    let mut service = MatchmakingService::new(MatchmakingConfig::default());
    service.join_queue(open_request(1, "0xA", 1500, Some(10), T0)).unwrap();
    let again = service.join_queue(open_request(1, "0xB", 1500, Some(10), T0 + 1));
    assert_eq!(again, Err(MatchmakingError::DuplicateId));
    assert_eq!(service.snapshot(MatchType::Open).len(), 1);
    assert_eq!(service.get_request(1).unwrap().request.player.wallet_address, "0xA");
    assert!(service.cancel_request(1));
    let after = service.join_queue(open_request(1, "0xB", 1500, Some(10), T0 + 2));
    assert_eq!(after, Err(MatchmakingError::DuplicateId));
}

#[test]
fn accepting_fails_for_a_request_that_is_unknown_or_resolved() {
    let mut service = MatchmakingService::new(MatchmakingConfig::default());
    service.join_queue(invite_request(2, "0xD", 1500, "0xE", T0)).unwrap();
    service.join_queue(invite_request(3, "0xF", 1500, "0xG", T0)).unwrap();
    assert_eq!(
        service.accept_private_invite(99, player("0xE", 1500, T0 + 1)),
        Err(MatchmakingError::NotFound)
    );
    assert_eq!(
        service.accept_private_invite(2, player("0xE", 0, T0 + 1)),
        Err(MatchmakingError::RejectedInput)
    );
    assert_eq!(
        service.accept_private_invite(99, player("0xE", 0, T0 + 1)),
        Err(MatchmakingError::RejectedInput)
    );
    assert_eq!(service.get_queue_status(2), Some(QueueStatus::Waiting { position: 1 }));
    assert!(service.cancel_request(2));
    assert_eq!(
        service.accept_private_invite(2, player("0xE", 1500, T0 + 2)),
        Err(MatchmakingError::NotFound)
    );
    let made = service.accept_private_invite(3, player("0xG", 1500, T0 + 3)).unwrap();
    assert_eq!(made.request_a, 3);
    assert_eq!(
        service.accept_private_invite(3, player("0xG", 1500, T0 + 4)),
        Err(MatchmakingError::NotFound)
    );
    assert_eq!(
        service.accept_private_invite(made.request_b, player("0xH", 1500, T0 + 5)),
        Err(MatchmakingError::NotFound)
    );
}

#[test]
fn a_waiting_request_is_accepted_whoever_accepts() {
    let mut service = MatchmakingService::new(MatchmakingConfig::default());
    service.join_queue(invite_request(2, "0xD", 1500, "0xE", T0)).unwrap();
    let made = service.accept_private_invite_with(2, player("0xF", 900, T0 + 1), 10, 11).unwrap();
    assert_eq!((made.id, made.request_a, made.request_b), (11, 2, 10));
    assert_eq!(made.player_a.wallet_address, "0xD");
    assert_eq!(made.player_b.wallet_address, "0xF");
    assert_eq!(made.match_type, MatchType::Invite);
    assert_eq!(service.get_queue_status(2), Some(QueueStatus::Matched { match_id: 11 }));
    assert!(service.snapshot(MatchType::Invite).is_empty());
}

#[test]
fn an_open_request_that_is_accepted_leaves_the_open_pool() {
    let mut service = MatchmakingService::new(MatchmakingConfig::default());
    service.join_queue(open_request(1, "0xA", 1500, Some(10), T0)).unwrap();
    service.join_queue(open_request(2, "0xB", 2500, Some(10), T0 + 1)).unwrap();
    let made = service.accept_private_invite_with(1, player("0xC", 2900, T0 + 2), 10, 11).unwrap();
    assert_eq!((made.id, made.request_a, made.request_b), (11, 1, 10));
    assert_eq!(made.match_type, MatchType::Invite);
    assert_eq!(made.created_at, T0 + 2);
    assert_eq!(service.get_queue_status(1), Some(QueueStatus::Matched { match_id: 11 }));
    assert_eq!(service.get_queue_status(10), Some(QueueStatus::Matched { match_id: 11 }));
    assert_eq!(service.get_queue_status(2), Some(QueueStatus::Waiting { position: 1 }));
    let waiting: Vec<u128> = service.snapshot(MatchType::Open).iter().map(|r| r.id).collect();
    assert_eq!(waiting, vec![2]);
    let answer = service.get_request(10).unwrap();
    assert_eq!(answer.request.match_type, MatchType::Invite);
    assert_eq!(answer.request.invite_address, Some("0xA".to_string()));
    assert_eq!(answer.status, RequestStatus::Matched);
    // what was accepted is out of reach of any later pairing
    let later = service.join_queue(open_request(3, "0xD", 1500, Some(10), T0 + 3)).unwrap();
    assert_eq!(later.queue_status, QueueStatus::Waiting { position: 2 });
}

#[test]
fn accepting_under_taken_ids_is_refused() {
    let mut service = MatchmakingService::new(MatchmakingConfig::default());
    service.join_queue(invite_request(2, "0xD", 1500, "0xE", T0)).unwrap();
    service.join_queue(invite_request(3, "0xF", 1500, "0xG", T0)).unwrap();
    let taken = service.accept_private_invite_with(2, player("0xE", 1500, T0 + 1), 3, 50);
    assert_eq!(taken, Err(MatchmakingError::DuplicateId));
    let made = service.accept_private_invite_with(2, player("0xE", 1500, T0 + 1), 10, 50).unwrap();
    assert_eq!((made.id, made.request_a, made.request_b), (50, 2, 10));
    let clash = service.accept_private_invite_with(3, player("0xG", 1500, T0 + 2), 11, 50);
    assert_eq!(clash, Err(MatchmakingError::DuplicateId));
    assert_eq!(service.get_request(11), None);
    assert_eq!(service.get_queue_status(3), Some(QueueStatus::Waiting { position: 1 }));
}

#[test]
fn a_sweep_expires_what_has_waited_out_its_time() {
    let config = MatchmakingConfig { expiry_ms: 10_000, ..MatchmakingConfig::default() };
    let mut service = MatchmakingService::new(config);
    service.join_queue(open_request(1, "0xA", 1000, Some(10), T0)).unwrap();
    service.join_queue(open_request(2, "0xB", 2000, Some(10), T0 + 5_000)).unwrap();
    service.join_queue(invite_request(3, "0xC", 1000, "0xZ", T0 + 1_000)).unwrap();
    service.join_queue(invite_request(4, "0xD", 1000, "0xY", T0 + 9_000)).unwrap();

    assert_eq!(service.expire_stale(T0 + 9_999), Vec::<u128>::new());
    assert_eq!(service.expire_stale(T0 + 11_000), vec![1, 3]);
    assert_eq!(service.get_request(1).unwrap().status, RequestStatus::Expired);
    assert_eq!(service.get_request(3).unwrap().status, RequestStatus::Expired);
    assert_eq!(service.get_queue_status(1), None);
    assert_eq!(service.get_queue_status(2), Some(QueueStatus::Waiting { position: 1 }));
    assert_eq!(service.get_queue_status(4), Some(QueueStatus::Waiting { position: 1 }));
    assert!(!service.cancel_request(1));
    assert_eq!(
        service.accept_private_invite(3, player("0xZ", 1000, T0 + 11_001)),
        Err(MatchmakingError::NotFound)
    );
    assert_eq!(service.expire_stale(T0 + 11_000), Vec::<u128>::new());
    assert_eq!(service.expire_stale(T0 + 19_000), vec![2, 4]);
    assert!(service.snapshot(MatchType::Open).is_empty());
    assert!(service.snapshot(MatchType::Invite).is_empty());
}

#[test]
fn a_new_engine_is_empty_and_keeps_its_parameters() {
    let config = MatchmakingConfig {
        default_max_elo_diff: 30,
        widen_per_second: 2,
        max_elo_diff_cap: 90,
        expiry_ms: 1,
    };
    let service = MatchmakingService::new(config);
    assert_eq!(service.config(), config);
    assert_eq!(service.get_queue_status(1), None);
    assert_eq!(service.get_match(1), None);
    assert_eq!(service.get_request(1), None);
    assert!(service.snapshot(MatchType::Open).is_empty());
    assert!(service.snapshot(MatchType::Invite).is_empty());
}

#[test]
fn default_parameters() {
    let config = MatchmakingConfig::default();
    assert_eq!(config.default_max_elo_diff, 100);
    assert_eq!(config.widen_per_second, 5);
    assert_eq!(config.max_elo_diff_cap, 400);
    assert_eq!(config.expiry_ms, 300_000);
}

#[test]
fn accepting_depends_on_no_rating_and_no_tolerance() {
    for (inviter_elo, acceptor_elo, tolerance) in
        [(1u32, u32::MAX, Some(0u32)), (3000, 1, None), (1500, 1500, Some(10)), (800, 2800, Some(1))]
    {
        let mut service = MatchmakingService::new(MatchmakingConfig::default());
        let mut invite = invite_request(20, "0xD", inviter_elo, "0xE", T0);
        invite.max_elo_diff = tolerance;
        service.join_queue(invite).unwrap();
        let made = service.accept_private_invite_with(20, player("0xE", acceptor_elo, T0 + 1), 21, 22);
        let made = made.unwrap();
        assert_eq!((made.id, made.request_a, made.request_b), (22, 20, 21));
        assert_eq!(made.player_a.elo, inviter_elo);
        assert_eq!(made.player_b.elo, acceptor_elo);
        assert_eq!(service.get_queue_status(20), Some(QueueStatus::Matched { match_id: 22 }));
        assert_eq!(service.get_queue_status(21), Some(QueueStatus::Matched { match_id: 22 }));
    }
}
