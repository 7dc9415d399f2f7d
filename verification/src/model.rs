//! The engine as a mathematical state: what it holds, what must hold of it,
//! and what each operation makes of it.

use vstd::prelude::*;
use crate::bound::{compatible, stale};
use crate::config::MatchmakingConfig;
use crate::ids::is_random_uuid;
use crate::pairing::{first_pair, greedy_pairs};
use crate::partition::{
    distinct_ids,
    enqueued,
    holds_id,
    holds_wallet,
    position_of,
    sorted_by_join_time,
    without_id,
};
use crate::registry::{coherent_records, resolved_record, waiting_record};
use crate::store::keyed_by_id;
use crate::types::{
    MatchId,
    MatchRequestView,
    MatchType,
    MatchView,
    PlayerView,
    QueueStatus,
    RequestId,
    RequestRecordView,
    RequestStatus,
    Timestamp,
};

verus! {

/// Whether a request meets the constraints on what may be admitted: a rating
/// above zero, and a counterpart named exactly when the request is an invite.
pub open spec fn valid_request(request: MatchRequestView) -> bool {
    &&& request.player.elo > 0
    &&& (request.match_type == MatchType::Invite) == request.invite_address.is_some()
}

/// The match that pairs the requests `a` and `b` under the id `id` at `now`.
pub open spec fn pair_match(
    a: MatchRequestView,
    b: MatchRequestView,
    id: MatchId,
    now: Timestamp,
) -> MatchView {
    MatchView {
        id,
        request_a: a.id,
        request_b: b.id,
        player_a: a.player,
        player_b: b.player,
        match_type: a.match_type,
        created_at: now,
    }
}

/// The request that stands for `player` when that player accepts the
/// request `invite`: an invite that names the inviter in turn.
pub open spec fn accepting_request(
    invite: MatchRequestView,
    player: PlayerView,
    id: RequestId,
) -> MatchRequestView {
    MatchRequestView {
        id,
        player,
        match_type: MatchType::Invite,
        invite_address: Some(invite.player.wallet_address),
        max_elo_diff: None,
    }
}

/// The match that resolves the request `invite` against `player`'s own
/// request `request_id` under the id `match_id`: an invite match, made when
/// the player accepted.
pub open spec fn accept_match(
    invite: MatchRequestView,
    player: PlayerView,
    request_id: RequestId,
    match_id: MatchId,
) -> MatchView {
    MatchView {
        id: match_id,
        request_a: invite.id,
        request_b: request_id,
        player_a: invite.player,
        player_b: player,
        match_type: MatchType::Invite,
        created_at: player.join_time,
    }
}

/// The test that keeps the requests that are not stale at `now`.
pub open spec fn fresh_at(now: Timestamp, config: MatchmakingConfig) -> spec_fn(
    MatchRequestView,
) -> bool {
    |r: MatchRequestView| !stale(r, now, config)
}

/// The test that keeps the requests that are stale at `now`.
pub open spec fn stale_at(now: Timestamp, config: MatchmakingConfig) -> spec_fn(
    MatchRequestView,
) -> bool {
    |r: MatchRequestView| stale(r, now, config)
}

/// The ids of the requests of a pool that are stale at `now`, oldest first.
pub open spec fn stale_ids(
    q: Seq<MatchRequestView>,
    now: Timestamp,
    config: MatchmakingConfig,
) -> Seq<RequestId> {
    q.filter(stale_at(now, config)).map_values(|r: MatchRequestView| r.id)
}

/// The registry `requests` after the requests `gone` have expired.
pub open spec fn expire_ids(
    requests: Map<RequestId, RequestRecordView>,
    gone: Seq<MatchRequestView>,
) -> Map<RequestId, RequestRecordView> {
    Map::new(
        |id: RequestId| requests.contains_key(id),
        |id: RequestId|
            if holds_id(gone, id) {
                resolved_record(requests[id], RequestStatus::Expired, None)
            } else {
                requests[id]
            },
    )
}

/// The state of the engine.
#[verifier::ext_equal]
pub struct ServiceView {
    pub config: MatchmakingConfig,
    /// Every request ever admitted, by id.
    pub requests: Map<RequestId, RequestRecordView>,
    /// The open pool, oldest first.
    pub open: Seq<MatchRequestView>,
    /// The pool of invites, oldest first.
    pub invites: Seq<MatchRequestView>,
    /// Every match ever made, by id.
    pub matches: Map<MatchId, MatchView>,
}

impl ServiceView {
    /// The pool of the match type `kind`.
    pub open spec fn pool(self, kind: MatchType) -> Seq<MatchRequestView> {
        match kind {
            MatchType::Open => self.open,
            MatchType::Invite => self.invites,
        }
    }

    /// Whether the request `id` is registered and waits.
    pub open spec fn is_waiting(self, id: RequestId) -> bool {
        self.requests.contains_key(id) && self.requests[id].status == RequestStatus::Waiting
    }

    /// Whether a request of the wallet `wallet` waits in either pool.
    pub open spec fn wallet_waits(self, wallet: Seq<char>) -> bool {
        holds_wallet(self.open, wallet) || holds_wallet(self.invites, wallet)
    }

    /// Whether a stored match has an id of the form of a random UUID. Where
    /// none has, no id the engine draws for a match is taken.
    pub open spec fn holds_random_match(self) -> bool {
        exists|id: MatchId| #[trigger] is_random_uuid(id) && self.matches.contains_key(id)
    }

    /// Whether a registered request or a stored match has an id of the form
    /// of a random UUID. Where none has, no id the engine draws is taken.
    pub open spec fn holds_random_id(self) -> bool {
        exists|id: u128|
            #[trigger] is_random_uuid(id) && (self.requests.contains_key(id)
                || self.matches.contains_key(id))
    }

    /// What a status query answers for the request `id`.
    pub open spec fn status_of(self, id: RequestId) -> Option<QueueStatus> {
        if !self.requests.contains_key(id) {
            None
        } else {
            match self.requests[id].status {
                RequestStatus::Waiting => match position_of(
                    self.pool(self.requests[id].request.match_type),
                    id,
                ) {
                    Some(place) => Some(QueueStatus::Waiting { position: place as usize }),
                    None => None,
                },
                RequestStatus::Matched => match self.requests[id].match_id {
                    Some(match_id) => Some(QueueStatus::Matched { match_id }),
                    None => None,
                },
                _ => None,
            }
        }
    }

    /// Whether `request` may stand in the pool of `kind`: it is of that match
    /// type, and the registry records it, as it stands there, as waiting.
    pub open spec fn pooled(self, request: MatchRequestView, kind: MatchType) -> bool {
        &&& request.match_type == kind
        &&& self.requests.contains_key(request.id)
        &&& self.requests[request.id] == waiting_record(request)
    }

    /// Whether every request in a pool may stand there.
    pub open spec fn pools_registered(self) -> bool {
        &&& forall|i: int|
            0 <= i < self.open.len() ==> self.pooled(#[trigger] self.open[i], MatchType::Open)
        &&& forall|i: int|
            0 <= i < self.invites.len() ==> self.pooled(
                #[trigger] self.invites[i],
                MatchType::Invite,
            )
    }

    /// Whether every waiting request stands in the pool of its match type.
    pub open spec fn waiting_pooled(self) -> bool {
        forall|id: RequestId| #[trigger]
            self.is_waiting(id) ==> holds_id(self.pool(self.requests[id].request.match_type), id)
    }

    /// Whether both pools are ordered by join time and hold no id twice.
    pub open spec fn pools_ordered(self) -> bool {
        &&& sorted_by_join_time(self.open)
        &&& sorted_by_join_time(self.invites)
        &&& distinct_ids(self.open)
        &&& distinct_ids(self.invites)
    }

    /// Whether the registry records the request `id` as resolved by the match
    /// `by`.
    pub open spec fn resolved_by(self, id: RequestId, by: MatchId) -> bool {
        &&& self.requests.contains_key(id)
        &&& self.requests[id].status == RequestStatus::Matched
        &&& self.requests[id].match_id == Some(by)
    }

    /// Whether a match agrees with the registry: it pairs two different
    /// requests that the registry records as resolved by it and carries their
    /// players; and, if made from the open pool, it pairs two open requests
    /// that were compatible when it was made. A match made by acceptance is
    /// an invite match, whatever the request it resolved.
    pub open spec fn match_sound(self, m: MatchView) -> bool {
        &&& m.request_a != m.request_b
        &&& self.resolved_by(m.request_a, m.id)
        &&& self.resolved_by(m.request_b, m.id)
        &&& m.player_a == self.requests[m.request_a].request.player
        &&& m.player_b == self.requests[m.request_b].request.player
        &&& m.match_type == MatchType::Open ==> {
            &&& self.requests[m.request_a].request.match_type == MatchType::Open
            &&& self.requests[m.request_b].request.match_type == MatchType::Open
            &&& compatible(
                self.requests[m.request_a].request,
                self.requests[m.request_b].request,
                m.created_at,
                self.config,
            )
        }
    }

    /// Whether every stored match agrees with the registry.
    pub open spec fn matches_sound(self) -> bool {
        forall|id: MatchId|
            self.matches.contains_key(id) ==> self.match_sound(#[trigger] self.matches[id])
    }

    /// Whether every request recorded as matched names a stored match that
    /// pairs it.
    pub open spec fn matched_stored(self) -> bool {
        forall|id: RequestId|
            self.requests.contains_key(id) && (#[trigger] self.requests[id]).status
                == RequestStatus::Matched ==> {
                &&& self.requests[id].match_id.is_some()
                &&& self.matches.contains_key(self.requests[id].match_id.unwrap())
                &&& self.matches[self.requests[id].match_id.unwrap()].references(id)
            }
    }

    /// Whether no two waiting requests are of one wallet.
    pub open spec fn wallets_apart(self) -> bool {
        forall|x: RequestId, y: RequestId|
            #![trigger self.is_waiting(x), self.is_waiting(y)]
            self.is_waiting(x) && self.is_waiting(y) && x != y
                ==> self.requests[x].request.player.wallet_address
                != self.requests[y].request.player.wallet_address
    }

    /// Whether every registered request meets the constraints of admission.
    pub open spec fn requests_valid(self) -> bool {
        forall|id: RequestId|
            self.requests.contains_key(id) ==> valid_request((#[trigger] self.requests[id]).request)
    }

    /// What holds of the engine between any two operations.
    #[verifier::opaque]
    pub open spec fn consistent(self) -> bool {
        &&& coherent_records(self.requests)
        &&& keyed_by_id(self.matches)
        &&& self.pools_ordered()
        &&& self.pools_registered()
        &&& self.waiting_pooled()
        &&& self.matches_sound()
        &&& self.matched_stored()
        &&& self.wallets_apart()
        &&& self.requests_valid()
    }

    /// Whether `next` may follow this state: nothing registered or stored has
    /// gone, no request has changed, no resolved record and no match has
    /// changed.
    pub open spec fn advances_to(self, next: ServiceView) -> bool {
        &&& next.config == self.config
        &&& forall|id: RequestId| #[trigger]
            self.requests.contains_key(id) ==> {
                &&& next.requests.contains_key(id)
                &&& next.requests[id].request == self.requests[id].request
                &&& self.requests[id].status != RequestStatus::Waiting ==> next.requests[id]
                    == self.requests[id]
            }
        &&& forall|id: MatchId| #[trigger]
            self.matches.contains_key(id) ==> next.matches.contains_key(id) && next.matches[id]
                == self.matches[id]
    }

    /// Whether `next` differs from this state in the registry only by
    /// requests that have become matched.
    pub open spec fn only_matches_to(self, next: ServiceView) -> bool {
        forall|id: RequestId| #[trigger]
            self.requests.contains_key(id) ==> next.requests.contains_key(id) && (
            next.requests[id] == self.requests[id] || (self.requests[id].status
                == RequestStatus::Waiting && next.requests[id].status == RequestStatus::Matched))
    }

    /// The state with no request and no match.
    pub open spec fn empty(config: MatchmakingConfig) -> ServiceView {
        ServiceView {
            config,
            requests: Map::empty(),
            open: Seq::empty(),
            invites: Seq::empty(),
            matches: Map::empty(),
        }
    }

    /// Whether `request` may be admitted: it meets the constraints, and its
    /// wallet has no request waiting.
    pub open spec fn admissible(self, request: MatchRequestView) -> bool {
        valid_request(request) && !self.wallet_waits(request.player.wallet_address)
    }

    /// The state after `request` has been registered as waiting and has
    /// entered the pool of its match type.
    pub open spec fn enter(self, request: MatchRequestView) -> ServiceView {
        ServiceView {
            requests: self.requests.insert(request.id, waiting_record(request)),
            open: if request.match_type == MatchType::Open {
                enqueued(self.open, request)
            } else {
                self.open
            },
            invites: if request.match_type == MatchType::Invite {
                enqueued(self.invites, request)
            } else {
                self.invites
            },
            ..self
        }
    }

    /// The state after the waiting request `id` has left its pool unmatched,
    /// as `status` says: cancelled or expired.
    pub open spec fn resolve(self, id: RequestId, status: RequestStatus) -> ServiceView {
        ServiceView {
            requests: self.requests.insert(id, resolved_record(self.requests[id], status, None)),
            open: without_id(self.open, id),
            invites: without_id(self.invites, id),
            ..self
        }
    }

    /// A cancellation of the request `id`: the state after it, and whether it
    /// took effect. It takes effect exactly when the request waits.
    pub open spec fn cancel(self, id: RequestId) -> (ServiceView, bool) {
        if self.is_waiting(id) {
            (self.resolve(id, RequestStatus::Cancelled), true)
        } else {
            (self, false)
        }
    }

    /// Whether the match `m` may be made: it pairs two different waiting
    /// requests of one match type under an id not yet taken, carries their
    /// players, and, if of the open pool, pairs requests compatible at its
    /// time.
    pub open spec fn may_record(self, m: MatchView) -> bool {
        &&& m.request_a != m.request_b
        &&& self.is_waiting(m.request_a)
        &&& self.is_waiting(m.request_b)
        &&& !self.matches.contains_key(m.id)
        &&& m.player_a == self.requests[m.request_a].request.player
        &&& m.player_b == self.requests[m.request_b].request.player
        &&& m.match_type == self.requests[m.request_a].request.match_type
        &&& m.match_type == self.requests[m.request_b].request.match_type
        &&& m.match_type == MatchType::Open ==> compatible(
            self.requests[m.request_a].request,
            self.requests[m.request_b].request,
            m.created_at,
            self.config,
        )
    }

    /// The state after the match `m` has been made: both requests are
    /// recorded as resolved by it and have left the pools, and it is stored.
    pub open spec fn record_match(self, m: MatchView) -> ServiceView {
        ServiceView {
            requests: self.requests.insert(
                m.request_a,
                resolved_record(self.requests[m.request_a], RequestStatus::Matched, Some(m.id)),
            ).insert(
                m.request_b,
                resolved_record(self.requests[m.request_b], RequestStatus::Matched, Some(m.id)),
            ),
            open: without_id(without_id(self.open, m.request_a), m.request_b),
            invites: without_id(without_id(self.invites, m.request_a), m.request_b),
            matches: self.matches.insert(m.id, m),
            ..self
        }
    }

    /// The two requests of the open pool that the engine pairs next at `now`,
    /// the older first; `None` if no two are compatible.
    pub open spec fn next_pair(self, now: Timestamp) -> Option<
        (MatchRequestView, MatchRequestView),
    > {
        match first_pair(self.open, now, self.config) {
            Some((i, j)) => Some((self.open[i], self.open[j])),
            None => None,
        }
    }

    /// The state after the engine has paired the next two requests of the
    /// open pool at `now` under the id `match_id`; the state itself if no two
    /// are compatible.
    pub open spec fn pair_next(self, match_id: MatchId, now: Timestamp) -> ServiceView {
        match self.next_pair(now) {
            Some((a, b)) => self.record_match(pair_match(a, b, match_id, now)),
            None => self,
        }
    }

    /// The state after the pairs `pairs` have been matched at `now`, one after
    /// the other, the k-th under the id `ids[k]`.
    pub open spec fn record_pairs(
        self,
        pairs: Seq<(MatchRequestView, MatchRequestView)>,
        ids: Seq<MatchId>,
        now: Timestamp,
    ) -> ServiceView
        decreases pairs.len(),
    {
        if pairs.len() == 0 || ids.len() != pairs.len() {
            self
        } else {
            self.record_pairs(pairs.drop_last(), ids.drop_last(), now).record_match(
                pair_match(pairs.last().0, pairs.last().1, ids.last(), now),
            )
        }
    }

    /// The state after the first pairs that the open pool yields at `now` have
    /// been matched, as many as `ids` holds, the k-th under the id `ids[k]`.
    pub open spec fn pair_first(self, ids: Seq<MatchId>, now: Timestamp) -> ServiceView {
        let pairs = greedy_pairs(self.open, now, self.config);
        if ids.len() <= pairs.len() {
            self.record_pairs(pairs.subrange(0, ids.len() as int), ids, now)
        } else {
            self
        }
    }

    /// The number of pairs that joining with `request` makes: those the open
    /// pool yields at the request's join time once the request has entered
    /// it. A request that is no open one enters its pool and makes no pair.
    pub open spec fn join_pairs(self, request: MatchRequestView) -> nat {
        if request.match_type == MatchType::Open {
            greedy_pairs(self.enter(request).open, request.player.join_time, self.config).len()
        } else {
            0
        }
    }

    /// The state after `request` has joined and the first pairs that its
    /// joining makes have been matched, as many as `ids` holds, the k-th
    /// under the id `ids[k]`.
    pub open spec fn join(self, request: MatchRequestView, ids: Seq<MatchId>) -> ServiceView {
        if request.match_type == MatchType::Open {
            self.enter(request).pair_first(ids, request.player.join_time)
        } else {
            self.enter(request)
        }
    }

    /// Whether `next` is what a join with `request` leaves when a taken id
    /// stops it: the state itself if the request's own id is registered;
    /// else the state after the request has joined and fewer pairs than its
    /// joining makes have been matched, a state in which a stored match has
    /// the id drawn for the next pair.
    pub open spec fn join_stopped(self, request: MatchRequestView, next: ServiceView) -> bool {
        if self.requests.contains_key(request.id) {
            next == self
        } else {
            &&& next.holds_random_match()
            &&& exists|ids: Seq<MatchId>|
                ids.len() < self.join_pairs(request) && next == #[trigger] self.join(request, ids)
        }
    }

    /// The state after `player` has accepted the waiting request `inviter`:
    /// the player's own request stands in the registry under `request_id`,
    /// both requests are resolved by the match `match_id`, and the request
    /// accepted has left its pool.
    pub open spec fn accept(
        self,
        inviter: RequestId,
        player: PlayerView,
        request_id: RequestId,
        match_id: MatchId,
    ) -> ServiceView {
        let invite = self.requests[inviter].request;
        let answer = accepting_request(invite, player, request_id);
        ServiceView {
            requests: self.requests.insert(
                inviter,
                resolved_record(self.requests[inviter], RequestStatus::Matched, Some(match_id)),
            ).insert(
                request_id,
                resolved_record(waiting_record(answer), RequestStatus::Matched, Some(match_id)),
            ),
            open: without_id(self.open, inviter),
            invites: without_id(self.invites, inviter),
            matches: self.matches.insert(
                match_id,
                accept_match(invite, player, request_id, match_id),
            ),
            ..self
        }
    }

    /// The state after a sweep of the pool of `kind` at `now`: every request
    /// that waits in it and is stale is expired and has left the pool.
    pub open spec fn expire_in(self, kind: MatchType, now: Timestamp) -> ServiceView {
        ServiceView {
            requests: Map::new(
                |id: RequestId| self.requests.contains_key(id),
                |id: RequestId|
                    if self.is_waiting(id) && self.requests[id].request.match_type == kind && stale(
                        self.requests[id].request,
                        now,
                        self.config,
                    ) {
                        resolved_record(self.requests[id], RequestStatus::Expired, None)
                    } else {
                        self.requests[id]
                    },
            ),
            open: if kind == MatchType::Open {
                self.open.filter(fresh_at(now, self.config))
            } else {
                self.open
            },
            invites: if kind == MatchType::Invite {
                self.invites.filter(fresh_at(now, self.config))
            } else {
                self.invites
            },
            ..self
        }
    }

    /// The state after a sweep at `now`: every waiting request that is stale
    /// is expired and has left its pool.
    pub open spec fn expire(self, now: Timestamp) -> ServiceView {
        ServiceView {
            requests: Map::new(
                |id: RequestId| self.requests.contains_key(id),
                |id: RequestId|
                    if self.is_waiting(id) && stale(self.requests[id].request, now, self.config) {
                        resolved_record(self.requests[id], RequestStatus::Expired, None)
                    } else {
                        self.requests[id]
                    },
            ),
            open: self.open.filter(fresh_at(now, self.config)),
            invites: self.invites.filter(fresh_at(now, self.config)),
            ..self
        }
    }
}

} // verus!
