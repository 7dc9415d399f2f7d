use matchmaking::partition::QueuePartition;
use matchmaking::registry::RequestRegistry;
use matchmaking::store::MatchStore;
use matchmaking::types::{
    Match, MatchRequest, MatchType, MatchmakingError, Player, RequestStatus,
};

fn entry(id: u128, wallet: &str, at: i64) -> MatchRequest {
    MatchRequest {
        id,
        player: Player { wallet_address: wallet.to_string(), elo: 1500, join_time: at },
        match_type: MatchType::Open,
        invite_address: None,
        max_elo_diff: Some(25),
    }
}

fn ids_of(pool: &QueuePartition) -> Vec<u128> {
    pool.snapshot().iter().map(|r| r.id).collect()
}

fn game(id: u128, a: u128, b: u128) -> Match {
    Match {
        id,
        request_a: a,
        request_b: b,
        player_a: Player { wallet_address: "0xA".to_string(), elo: 1500, join_time: 1 },
        player_b: Player { wallet_address: "0xB".to_string(), elo: 1510, join_time: 2 },
        match_type: MatchType::Open,
        created_at: 2,
    }
}

#[test]
fn a_pool_keeps_its_requests_oldest_first() {
    let mut pool = QueuePartition::new();
    assert_eq!(pool.len(), 0);
    assert_eq!(pool.enqueue(entry(1, "a", 50)), 0);
    assert_eq!(pool.enqueue(entry(2, "b", 70)), 1);
    assert_eq!(pool.enqueue(entry(3, "c", 60)), 1);
    assert_eq!(pool.enqueue(entry(4, "d", 10)), 0);
    assert_eq!(pool.enqueue(entry(5, "e", 60)), 3);
    assert_eq!(pool.enqueue(entry(6, "f", 70)), 5);
    assert_eq!(ids_of(&pool), vec![4, 1, 3, 5, 2, 6]);
    assert_eq!(pool.len(), 6);
    assert_eq!(pool.entry(2).id, 3);
    assert_eq!(pool.entry(2), &entry(3, "c", 60));
}

#[test]
fn a_pool_tells_the_place_of_a_request() {
    let mut pool = QueuePartition::new();
    pool.enqueue(entry(1, "a", 50));
    pool.enqueue(entry(2, "b", 70));
    pool.enqueue(entry(3, "c", 60));
    assert_eq!(pool.position(1), Some(1));
    assert_eq!(pool.position(3), Some(2));
    assert_eq!(pool.position(2), Some(3));
    assert_eq!(pool.position(9), None);
    assert_eq!(QueuePartition::new().position(1), None);
}

#[test]
fn removing_from_a_pool_is_idempotent() {
    let mut pool = QueuePartition::new();
    pool.enqueue(entry(1, "a", 50));
    pool.enqueue(entry(2, "b", 70));
    pool.enqueue(entry(3, "c", 60));
    assert!(pool.remove(3));
    assert_eq!(ids_of(&pool), vec![1, 2]);
    assert!(!pool.remove(3));
    assert!(!pool.remove(42));
    assert_eq!(ids_of(&pool), vec![1, 2]);
    assert!(pool.remove(1));
    assert!(pool.remove(2));
    assert_eq!(pool.len(), 0);
    assert!(!pool.remove(1));
}

#[test]
fn removing_an_id_removes_every_request_with_it() {
    let mut pool = QueuePartition::new();
    pool.enqueue(entry(1, "a", 50));
    pool.enqueue(entry(2, "b", 60));
    pool.enqueue(entry(1, "c", 70));
    pool.enqueue(entry(1, "d", 80));
    assert!(pool.remove(1));
    assert_eq!(ids_of(&pool), vec![2]);
}

#[test]
fn taking_from_a_pool_hands_the_request_out() {
    let mut pool = QueuePartition::new();
    pool.enqueue(entry(1, "a", 50));
    pool.enqueue(entry(2, "b", 70));
    pool.enqueue(entry(3, "c", 60));
    assert_eq!(pool.take(1), entry(3, "c", 60));
    assert_eq!(ids_of(&pool), vec![1, 2]);
    assert_eq!(pool.take(0), entry(1, "a", 50));
    assert_eq!(pool.take(0), entry(2, "b", 70));
    assert_eq!(pool.len(), 0);
}

#[test]
fn a_pool_knows_the_wallets_that_wait() {
    let mut pool = QueuePartition::new();
    pool.enqueue(entry(1, "0xA", 50));
    pool.enqueue(entry(2, "0xB", 70));
    assert!(pool.has_wallet(&"0xA".to_string()));
    assert!(pool.has_wallet(&"0xB".to_string()));
    assert!(!pool.has_wallet(&"0xa".to_string()));
    assert!(!pool.has_wallet(&"".to_string()));
    pool.remove(1);
    assert!(!pool.has_wallet(&"0xA".to_string()));
}

#[test]
fn the_registry_records_a_request_as_waiting() {
    let mut registry = RequestRegistry::new();
    assert!(!registry.contains(1));
    assert_eq!(registry.get(1), Err(MatchmakingError::NotFound));
    assert_eq!(registry.register(entry(1, "a", 50)), Ok(1));
    assert!(registry.contains(1));
    let record = registry.get(1).unwrap();
    assert_eq!(record.request, entry(1, "a", 50));
    assert_eq!(record.status, RequestStatus::Waiting);
    assert_eq!(record.match_id, None);
}

#[test]
fn the_registry_refuses_an_id_twice() {
    let mut registry = RequestRegistry::new();
    assert_eq!(registry.register(entry(1, "a", 50)), Ok(1));
    assert_eq!(registry.register(entry(1, "b", 60)), Err(MatchmakingError::DuplicateId));
    assert_eq!(registry.get(1).unwrap().request, entry(1, "a", 50));
}

#[test]
fn only_a_waiting_request_advances() {
    let mut registry = RequestRegistry::new();
    registry.register(entry(1, "a", 50)).unwrap();
    registry.register(entry(2, "b", 50)).unwrap();
    registry.register(entry(3, "c", 50)).unwrap();
    assert_eq!(
        registry.transition(9, RequestStatus::Cancelled, None),
        Err(MatchmakingError::NotFound)
    );
    assert_eq!(registry.transition(1, RequestStatus::Matched, Some(77)), Ok(()));
    assert_eq!(registry.get(1).unwrap().status, RequestStatus::Matched);
    assert_eq!(registry.get(1).unwrap().match_id, Some(77));
    assert_eq!(registry.get(1).unwrap().request, entry(1, "a", 50));
    assert_eq!(registry.transition(2, RequestStatus::Cancelled, None), Ok(()));
    assert_eq!(registry.transition(3, RequestStatus::Expired, None), Ok(()));
    assert_eq!(registry.get(3).unwrap().status, RequestStatus::Expired);
    for id in [1u128, 2, 3] {
        for status in [
            RequestStatus::Waiting,
            RequestStatus::Matched,
            RequestStatus::Cancelled,
            RequestStatus::Expired,
        ] {
            assert_eq!(
                registry.transition(id, status, None),
                Err(MatchmakingError::InvalidTransition)
            );
            assert_eq!(
                registry.transition(id, status, Some(5)),
                Err(MatchmakingError::InvalidTransition)
            );
        }
    }
    assert_eq!(registry.get(1).unwrap().match_id, Some(77));
    assert_eq!(registry.get(2).unwrap().status, RequestStatus::Cancelled);
}

#[test]
fn an_advance_names_a_match_exactly_when_it_matches() {
    let mut registry = RequestRegistry::new();
    registry.register(entry(1, "a", 50)).unwrap();
    assert_eq!(
        registry.transition(1, RequestStatus::Matched, None),
        Err(MatchmakingError::InvalidTransition)
    );
    assert_eq!(
        registry.transition(1, RequestStatus::Cancelled, Some(3)),
        Err(MatchmakingError::InvalidTransition)
    );
    assert_eq!(
        registry.transition(1, RequestStatus::Expired, Some(3)),
        Err(MatchmakingError::InvalidTransition)
    );
    assert_eq!(
        registry.transition(1, RequestStatus::Waiting, None),
        Err(MatchmakingError::InvalidTransition)
    );
    assert_eq!(registry.get(1).unwrap().status, RequestStatus::Waiting);
    assert_eq!(registry.transition(1, RequestStatus::Cancelled, None), Ok(()));
}

#[test]
fn the_store_keeps_a_match_as_it_was_made() {
    let mut store = MatchStore::new();
    assert!(!store.contains(5));
    assert_eq!(store.get(5), Err(MatchmakingError::NotFound));
    assert_eq!(store.insert(game(5, 1, 2)), Ok(5));
    assert!(store.contains(5));
    assert_eq!(store.get(5), Ok(&game(5, 1, 2)));
    assert_eq!(store.insert(game(5, 3, 4)), Err(MatchmakingError::DuplicateId));
    assert_eq!(store.get(5), Ok(&game(5, 1, 2)));
    assert_eq!(store.insert(game(6, 3, 4)), Ok(6));
    assert_eq!(store.get(6).unwrap().request_a, 3);
}
