//! The matchmaking service: the operations callers use, each one step of the
//! state that `model` describes.

use vstd::prelude::*;
use crate::bound::{compatible, is_stale, stale};
use crate::clock::now_millis;
use crate::config::MatchmakingConfig;
use crate::ids::{fresh_id, is_random_uuid};
use crate::model::{
    accept_match,
    accepting_request,
    expire_ids,
    pair_match,
    stale_ids,
    ServiceView,
};
use crate::pairing::{
    find_first_pair,
    greedy_pairs,
    greedy_rest,
    lemma_first_pair_none,
    lemma_first_pair_some,
    lemma_greedy_done,
    no_pair,
};
use crate::partition::{distinct_ids, request_views, QueuePartition};
use crate::preservation::{
    lemma_accept_consistent,
    lemma_advances_transitive,
    lemma_consistent_parts,
    lemma_empty_consistent,
    lemma_enter_consistent,
    lemma_expire_advances,
    lemma_expire_both,
    lemma_expire_head,
    lemma_expire_ids_step,
    lemma_expire_in_result,
    lemma_only_matches_transitive,
    lemma_pair_at,
    lemma_pair_next,
    lemma_pool_entry,
    lemma_record_pairs_push,
    lemma_resolve_consistent,
    lemma_status_known,
};
use crate::registry::RequestRegistry;
use crate::store::MatchStore;
use crate::types::{
    JoinResponse,
    Match,
    MatchId,
    MatchRequest,
    MatchRequestView,
    MatchType,
    MatchmakingError,
    Player,
    QueueStatus,
    RequestId,
    RequestRecord,
    RequestStatus,
    Timestamp,
};

verus! {

/// The engine: the registry of requests, the two waiting pools and the store
/// of matches, changed only together.
pub struct MatchmakingService {
    config: MatchmakingConfig,
    registry: RequestRegistry,
    open: QueuePartition,
    invites: QueuePartition,
    matches: MatchStore,
}

impl View for MatchmakingService {
    type V = ServiceView;

    closed spec fn view(&self) -> ServiceView {
        ServiceView {
            config: self.config,
            requests: self.registry@,
            open: self.open@,
            invites: self.invites@,
            matches: self.matches@,
        }
    }
}

impl MatchmakingService {
    /// Whether the registry, the pools and the store are each well formed.
    pub closed spec fn parts_wf(&self) -> bool {
        &&& self.registry.wf()
        &&& self.open.wf()
        &&& self.invites.wf()
        &&& self.matches.wf()
    }

    /// The engine is well formed when its parts are and its state is
    /// consistent.
    pub open spec fn wf(&self) -> bool {
        self.parts_wf() && self@.consistent()
    }

    /// An engine with no request and no match.
    pub fn new(config: MatchmakingConfig) -> (service: Self)
        ensures
            service.wf(),
            service@ == ServiceView::empty(config),
    {
        let service = MatchmakingService {
            config,
            registry: RequestRegistry::new(),
            open: QueuePartition::new(),
            invites: QueuePartition::new(),
            matches: MatchStore::new(),
        };
        proof {
            lemma_empty_consistent(config);
        }
        service
    }

    /// The parameters the engine runs with.
    pub fn config(&self) -> (config: MatchmakingConfig)
        ensures
            config == self@.config,
    {
        self.config
    }

    /// Registers `request` as waiting and puts it into the pool of its match
    /// type, without looking for a counterpart. Fails, changing nothing, with
    /// `RejectedInput` if the request may not be admitted, and otherwise with
    /// `DuplicateId` if its id is already registered.
    pub fn submit(&mut self, request: MatchRequest) -> (outcome: Result<(), MatchmakingError>)
        requires
            old(self).wf(),
        ensures
            final(self).wf(),
            old(self)@.advances_to(final(self)@),
            match outcome {
                Ok(_) => {
                    &&& old(self)@.admissible(request@)
                    &&& !old(self)@.requests.contains_key(request.id)
                    &&& final(self)@ == old(self)@.enter(request@)
                },
                Err(e) => {
                    &&& final(self)@ == old(self)@
                    &&& e == MatchmakingError::RejectedInput <==> !old(self)@.admissible(request@)
                    &&& e == MatchmakingError::DuplicateId <==> old(self)@.admissible(request@)
                        && old(self)@.requests.contains_key(request.id)
                    &&& e == MatchmakingError::RejectedInput || e == MatchmakingError::DuplicateId
                },
            },
    {
        proof {
            lemma_advances_transitive(self@, self@, self@);
        }
        let named: bool = request.invite_address.is_some();
        let invite: bool = match request.match_type {
            MatchType::Invite => true,
            MatchType::Open => false,
        };
        if request.player.elo == 0 || named != invite {
            return Err(MatchmakingError::RejectedInput);
        }
        if self.open.has_wallet(&request.player.wallet_address) || self.invites.has_wallet(
            &request.player.wallet_address,
        ) {
            return Err(MatchmakingError::RejectedInput);
        }
        if self.registry.contains(request.id) {
            return Err(MatchmakingError::DuplicateId);
        }
        let ghost before = self@;
        let copy = request.clone();
        let _ = self.registry.register(copy);
        if invite {
            let _ = self.invites.enqueue(request);
        } else {
            let _ = self.open.enqueue(request);
        }
        proof {
            assert(self@ =~= before.enter(request@));
            lemma_enter_consistent(before, request@);
        }
        Ok(())
    }

    /// Withdraws the request `id`: `true` if it waited, in which case it is
    /// now cancelled and out of its pool; `false`, changing nothing, if no
    /// such request is registered or it is already resolved.
    pub fn cancel_request(&mut self, id: RequestId) -> (cancelled: bool)
        requires
            old(self).wf(),
        ensures
            final(self).wf(),
            old(self)@.advances_to(final(self)@),
            cancelled == old(self)@.is_waiting(id),
            (final(self)@, cancelled) == old(self)@.cancel(id),
    {
        let ghost before = self@;
        proof {
            lemma_advances_transitive(before, before, before);
        }
        match self.registry.transition(id, RequestStatus::Cancelled, None) {
            Ok(_) => {
                let _ = self.open.remove(id);
                let _ = self.invites.remove(id);
                proof {
                    assert(self@ =~= before.resolve(id, RequestStatus::Cancelled));
                    lemma_resolve_consistent(before, id, RequestStatus::Cancelled);
                }
                true
            },
            Err(_) => false,
        }
    }

    /// Where the request `id` stands: its place in its pool while it waits,
    /// the match that resolved it once it is matched, and `None` if no such
    /// request is registered or it was cancelled or has expired.
    pub fn get_queue_status(&self, id: RequestId) -> (status: Option<QueueStatus>)
        ensures
            status == self@.status_of(id),
    {
        match self.registry.get(id) {
            Err(_) => None,
            Ok(record) => match record.status {
                RequestStatus::Waiting => {
                    let place = match record.request.match_type {
                        MatchType::Open => self.open.position(id),
                        MatchType::Invite => self.invites.position(id),
                    };
                    match place {
                        Some(position) => Some(QueueStatus::Waiting { position }),
                        None => None,
                    }
                },
                RequestStatus::Matched => match record.match_id {
                    Some(match_id) => Some(QueueStatus::Matched { match_id }),
                    None => None,
                },
                _ => None,
            },
        }
    }

    /// The record of the request `id`, whatever its status; `None` if no such
    /// request was ever registered.
    pub fn get_request(&self, id: RequestId) -> (found: Option<RequestRecord>)
        ensures
            match found {
                Some(record) => self@.requests.contains_key(id) && record@ == self@.requests[id],
                None => !self@.requests.contains_key(id),
            },
    {
        match self.registry.get(id) {
            Ok(record) => Some(record.clone()),
            Err(_) => None,
        }
    }

    /// The requests that wait in the pool of `kind`, oldest first.
    pub fn snapshot(&self, kind: MatchType) -> (requests: Vec<MatchRequest>)
        ensures
            request_views(requests@) == self@.pool(kind),
    {
        match kind {
            MatchType::Open => self.open.snapshot(),
            MatchType::Invite => self.invites.snapshot(),
        }
    }

    /// The match `id`, or `None` if no match has that id.
    pub fn get_match(&self, id: MatchId) -> (found: Option<Match>)
        ensures
            match found {
                Some(m) => self@.matches.contains_key(id) && m@ == self@.matches[id],
                None => !self@.matches.contains_key(id),
            },
    {
        match self.matches.get(id) {
            Ok(m) => Some(m.clone()),
            Err(_) => None,
        }
    }

    /// Matches the requests at `i` and `j` of the open pool under the id
    /// `match_id`.
    fn pair_at(&mut self, i: usize, j: usize, match_id: MatchId, now: Timestamp)
        requires
            old(self).wf(),
            i < j < old(self)@.open.len(),
            compatible(
                old(self)@.open[i as int],
                old(self)@.open[j as int],
                now,
                old(self)@.config,
            ),
            !old(self)@.matches.contains_key(match_id),
        ensures
            final(self).wf(),
            final(self)@ == old(self)@.record_match(
                pair_match(old(self)@.open[i as int], old(self)@.open[j as int], match_id, now),
            ),
            final(self)@.open == old(self)@.open.remove(j as int).remove(i as int),
            old(self)@.advances_to(final(self)@),
            old(self)@.only_matches_to(final(self)@),
    {
        let ghost before = self@;
        let ghost m = pair_match(before.open[i as int], before.open[j as int], match_id, now);
        proof {
            lemma_pair_at(before, i as int, j as int, match_id, now);
        }
        let b = self.open.take(j);
        let a = self.open.take(i);
        let a_id: RequestId = a.id;
        let b_id: RequestId = b.id;
        let record = Match {
            id: match_id,
            request_a: a_id,
            request_b: b_id,
            player_a: a.player,
            player_b: b.player,
            match_type: a.match_type,
            created_at: now,
        };
        assert(record@ == m);
        let first = self.registry.transition(a_id, RequestStatus::Matched, Some(match_id));
        assert(first.is_ok());
        let second = self.registry.transition(b_id, RequestStatus::Matched, Some(match_id));
        assert(second.is_ok());
        let stored = self.matches.insert(record);
        assert(stored.is_ok());
        proof {
            let target = before.record_match(m);
            assert(self@.requests =~= target.requests);
            assert(self@.matches =~= target.matches);
            assert(self@.open == target.open);
            assert(self@.invites == target.invites);
            assert(self@ == target);
        }
    }

    /// Pairs the two requests of the open pool that the engine pairs next at
    /// `now`, under the id `match_id`, and returns their ids, the older
    /// first; `None`, changing nothing, if no two are compatible. Fails with
    /// `DuplicateId`, changing nothing, if there is a pair to make and a match
    /// already has that id.
    pub fn pair_next(&mut self, match_id: MatchId, now: Timestamp) -> (outcome: Result<
        Option<(RequestId, RequestId)>,
        MatchmakingError,
    >)
        requires
            old(self).wf(),
        ensures
            final(self).wf(),
            old(self)@.advances_to(final(self)@),
            old(self)@.only_matches_to(final(self)@),
            outcome.is_err() <==> old(self)@.next_pair(now).is_some()
                && old(self)@.matches.contains_key(match_id),
            match outcome {
                Ok(made) => {
                    &&& final(self)@ == old(self)@.pair_next(match_id, now)
                    &&& made == match old(self)@.next_pair(now) {
                        Some((a, b)) => Some((a.id, b.id)),
                        None => None,
                    }
                },
                Err(e) => e == MatchmakingError::DuplicateId && final(self)@ == old(self)@,
            },
    {
        proof {
            lemma_advances_transitive(self@, self@, self@);
            lemma_only_matches_transitive(self@, self@, self@);
        }
        match find_first_pair(&self.open, now, &self.config) {
            None => Ok(None),
            Some((i, j)) => {
                if self.matches.contains(match_id) {
                    return Err(MatchmakingError::DuplicateId);
                }
                let a_id: RequestId = self.open.entry(i).id;
                let b_id: RequestId = self.open.entry(j).id;
                self.pair_at(i, j, match_id, now);
                Ok(Some((a_id, b_id)))
            },
        }
    }

    /// Pairs requests of the open pool at `now` until no two that wait are
    /// compatible, each pair under a fresh id, and returns the ids of the
    /// matches made, in the order they were made. Stops with `DuplicateId` if
    /// the id drawn for a pair is already the id of a match; the matches made
    /// until then stand.
    ///
    /// An id is drawn before each look for a pair, and `pair_next` does the
    /// rest. The pass succeeds wherever no id it draws can be taken: where no
    /// pair is to be made, and where one pair is to be made and no stored
    /// match has an id of the form of a random UUID.
    pub fn run_pairing(&mut self, now: Timestamp) -> (outcome: Result<
        Vec<MatchId>,
        MatchmakingError,
    >)
        requires
            old(self).wf(),
        ensures
            final(self).wf(),
            old(self)@.advances_to(final(self)@),
            old(self)@.only_matches_to(final(self)@),
            greedy_pairs(old(self)@.open, now, old(self)@.config).len() == 0 ==> outcome.is_ok(),
            greedy_pairs(old(self)@.open, now, old(self)@.config).len() <= 1 && !old(
                self,
            )@.holds_random_match() ==> outcome.is_ok(),
            match outcome {
                Ok(ids) => {
                    &&& final(self)@ == old(self)@.pair_first(ids@, now)
                    &&& forall|k: int| 0 <= k < ids@.len() ==> is_random_uuid(#[trigger] ids@[k])
                    &&& ids@.len() == greedy_pairs(old(self)@.open, now, old(self)@.config).len()
                    &&& final(self)@.open == greedy_rest(old(self)@.open, now, old(self)@.config)
                    &&& no_pair(final(self)@.open, now, old(self)@.config)
                },
                Err(e) => {
                    &&& e == MatchmakingError::DuplicateId
                    &&& final(self)@.holds_random_match()
                    &&& exists|made: Seq<MatchId>|
                        {
                            &&& made.len() < greedy_pairs(
                                old(self)@.open,
                                now,
                                old(self)@.config,
                            ).len()
                            &&& final(self)@ == #[trigger] old(self)@.pair_first(made, now)
                        }
                },
            },
    {
        let ghost before = self@;
        let ghost mut done: Seq<(MatchRequestView, MatchRequestView)> = Seq::empty();
        let mut ids: Vec<MatchId> = Vec::new();
        proof {
            lemma_advances_transitive(before, before, before);
            lemma_only_matches_transitive(before, before, before);
            assert(greedy_pairs(before.open, now, before.config) =~= done + greedy_pairs(
                before.open,
                now,
                before.config,
            ));
        }
        loop
            invariant
                self.wf(),
                before == old(self)@,
                self@.config == before.config,
                before.advances_to(self@),
                before.only_matches_to(self@),
                done.len() == ids@.len(),
                forall|k: int| 0 <= k < ids@.len() ==> is_random_uuid(#[trigger] ids@[k]),
                self@ == before.record_pairs(done, ids@, now),
                greedy_pairs(before.open, now, before.config) == done + greedy_pairs(
                    self@.open,
                    now,
                    before.config,
                ),
                greedy_rest(before.open, now, before.config) == greedy_rest(
                    self@.open,
                    now,
                    before.config,
                ),
            decreases self@.open.len(),
        {
            let ghost current = self@;
            let ghost all = greedy_pairs(before.open, now, before.config);
            let id: MatchId = fresh_id();
            match self.pair_next(id, now) {
                Ok(None) => {
                    proof {
                        lemma_first_pair_none(current.open, now, before.config);
                        lemma_greedy_done(current.open, now, before.config);
                        assert(all =~= done);
                        assert(all.subrange(0, ids@.len() as int) =~= done);
                    }
                    return Ok(ids);
                },
                Ok(Some(_)) => {
                    proof {
                        let pair = current.next_pair(now).unwrap();
                        lemma_pair_next(current, id, now);
                        lemma_record_pairs_push(before, done, ids@, pair, id, now);
                        assert(done.push(pair) + greedy_pairs(self@.open, now, before.config)
                            =~= done + (seq![pair] + greedy_pairs(
                            self@.open,
                            now,
                            before.config,
                        )));
                        lemma_advances_transitive(before, current, self@);
                        lemma_only_matches_transitive(before, current, self@);
                        done = done.push(pair);
                    }
                    ids.push(id);
                },
                Err(e) => {
                    proof {
                        lemma_first_pair_some(current.open, now, before.config);
                        assert(all.subrange(0, ids@.len() as int) =~= done);
                        assert(self@ == before.pair_first(ids@, now));
                        assert(is_random_uuid(id) && self@.matches.contains_key(id));
                    }
                    return Err(e);
                },
            }
        }
    }

    /// Admits `request` and, if it is an open request, pairs whatever the open
    /// pool yields at the request's join time; then tells where the request
    /// stands. The pool of invites is never scanned: an invite is resolved by
    /// its acceptance alone.
    ///
    /// Fails, changing nothing, with `RejectedInput` if the request may not be
    /// admitted, and otherwise with `DuplicateId` if its id is already
    /// registered. Fails with `DuplicateId` also if a fresh match id is
    /// already taken; the request is then admitted all the same, and the
    /// pairs made until then stand. No fresh id can be taken, and an
    /// admissible request under a free id succeeds, where its joining makes
    /// no pair, and where it makes one pair and no stored match has an id of
    /// the form of a random UUID.
    pub fn join_queue(&mut self, request: MatchRequest) -> (outcome: Result<
        JoinResponse,
        MatchmakingError,
    >)
        requires
            old(self).wf(),
        ensures
            final(self).wf(),
            old(self)@.advances_to(final(self)@),
            outcome == Err::<JoinResponse, MatchmakingError>(MatchmakingError::RejectedInput)
                <==> !old(self)@.admissible(request@),
            !old(self)@.admissible(request@) || old(self)@.requests.contains_key(request.id) ==> {
                &&& outcome.is_err()
                &&& final(self)@ == old(self)@
            },
            old(self)@.admissible(request@) && !old(self)@.requests.contains_key(request.id)
                && old(self)@.join_pairs(request@) == 0 ==> outcome.is_ok(),
            old(self)@.admissible(request@) && !old(self)@.requests.contains_key(request.id)
                && old(self)@.join_pairs(request@) <= 1 && !old(self)@.holds_random_match()
                ==> outcome.is_ok(),
            match outcome {
                Ok(response) => {
                    &&& response.request_id == request.id
                    &&& Some(response.queue_status) == final(self)@.status_of(request.id)
                    &&& exists|ids: Seq<MatchId>|
                        {
                            &&& ids.len() == old(self)@.join_pairs(request@)
                            &&& final(self)@ == #[trigger] old(self)@.join(request@, ids)
                        }
                    &&& request.match_type == MatchType::Open ==> no_pair(
                        final(self)@.open,
                        request.player.join_time,
                        old(self)@.config,
                    )
                },
                Err(e) => {
                    &&& e == MatchmakingError::RejectedInput || e == MatchmakingError::DuplicateId
                    &&& e == MatchmakingError::DuplicateId ==> old(self)@.join_stopped(
                        request@,
                        final(self)@,
                    )
                },
            },
    {
        let id: RequestId = request.id;
        let now: Timestamp = request.player.join_time;
        let scan: bool = match request.match_type {
            MatchType::Open => true,
            MatchType::Invite => false,
        };
        let ghost before = self@;
        let ghost view = request@;
        proof {
            lemma_advances_transitive(before, before, before);
        }
        match self.submit(request) {
            Err(e) => {
                return Err(e);
            },
            Ok(_) => {},
        }
        let ghost entered = self@;
        proof {
            lemma_enter_consistent(before, view);
        }
        if scan {
            match self.run_pairing(now) {
                Err(e) => {
                    proof {
                        lemma_advances_transitive(before, entered, self@);
                        let made = choose|made: Seq<MatchId>|
                            made.len() < greedy_pairs(entered.open, now, entered.config).len()
                                && self@ == #[trigger] entered.pair_first(made, now);
                        assert(self@ == before.join(view, made));
                    }
                    return Err(e);
                },
                Ok(ids) => {
                    proof {
                        lemma_advances_transitive(before, entered, self@);
                        assert(self@ == before.join(view, ids@));
                    }
                },
            }
        } else {
            proof {
                assert(self@ == before.join(view, Seq::<MatchId>::empty()));
            }
        }
        proof {
            assert(entered.requests.contains_key(id));
            lemma_status_known(self@, id);
        }
        let queue_status: QueueStatus = self.get_queue_status(id).unwrap();
        Ok(JoinResponse { request_id: id, queue_status })
    }

    /// Resolves the waiting request `inviter` against `player`, under the ids
    /// given: the player's own request is registered under `request_id`, and
    /// the match that pairs the two, whatever their ratings, is stored under
    /// `match_id` and returned. Who may accept which request is for the
    /// caller to settle.
    ///
    /// Fails, changing nothing: with `RejectedInput` if the player's rating is
    /// zero; otherwise with `NotFound` if no request `inviter` is registered
    /// or it no longer waits; otherwise with `DuplicateId` if one of the two
    /// ids is already taken.
    pub fn accept_private_invite_with(
        &mut self,
        inviter: RequestId,
        player: Player,
        request_id: RequestId,
        match_id: MatchId,
    ) -> (outcome: Result<Match, MatchmakingError>)
        requires
            old(self).wf(),
        ensures
            final(self).wf(),
            old(self)@.advances_to(final(self)@),
            match outcome {
                Ok(m) => {
                    &&& player.elo > 0
                    &&& old(self)@.is_waiting(inviter)
                    &&& !old(self)@.requests.contains_key(request_id)
                    &&& !old(self)@.matches.contains_key(match_id)
                    &&& final(self)@ == old(self)@.accept(inviter, player@, request_id, match_id)
                    &&& m@ == accept_match(
                        old(self)@.requests[inviter].request,
                        player@,
                        request_id,
                        match_id,
                    )
                    &&& m.request_a == inviter
                },
                Err(e) => {
                    &&& final(self)@ == old(self)@
                    &&& e == MatchmakingError::RejectedInput <==> player.elo == 0
                    &&& e == MatchmakingError::NotFound <==> player.elo > 0 && !old(
                        self,
                    )@.is_waiting(inviter)
                    &&& e == MatchmakingError::DuplicateId <==> {
                        &&& player.elo > 0
                        &&& old(self)@.is_waiting(inviter)
                        &&& old(self)@.requests.contains_key(request_id) || old(
                            self,
                        )@.matches.contains_key(match_id)
                    }
                    &&& e == MatchmakingError::RejectedInput || e == MatchmakingError::NotFound
                        || e == MatchmakingError::DuplicateId
                },
            },
    {
        let ghost before = self@;
        let ghost accepting = player@;
        proof {
            lemma_advances_transitive(before, before, before);
        }
        if player.elo == 0 {
            return Err(MatchmakingError::RejectedInput);
        }
        let invite: MatchRequest = match self.registry.get(inviter) {
            Err(_) => {
                return Err(MatchmakingError::NotFound);
            },
            Ok(record) => {
                match record.status {
                    RequestStatus::Waiting => {},
                    _ => {
                        return Err(MatchmakingError::NotFound);
                    },
                }
                record.request.clone()
            },
        };
        if self.registry.contains(request_id) || self.matches.contains(match_id) {
            return Err(MatchmakingError::DuplicateId);
        }
        let now: Timestamp = player.join_time;
        let answer = MatchRequest {
            id: request_id,
            player: player.clone(),
            match_type: MatchType::Invite,
            invite_address: Some(invite.player.wallet_address.clone()),
            max_elo_diff: None,
        };
        let record = Match {
            id: match_id,
            request_a: inviter,
            request_b: request_id,
            player_a: invite.player,
            player_b: player,
            match_type: MatchType::Invite,
            created_at: now,
        };
        let made = record.clone();
        let ghost target = before.accept(inviter, accepting, request_id, match_id);
        proof {
            lemma_consistent_parts(before);
            lemma_accept_consistent(before, inviter, accepting, request_id, match_id);
            assert(answer@ == accepting_request(
                before.requests[inviter].request,
                accepting,
                request_id,
            ));
        }
        let registered = self.registry.register(answer);
        assert(registered.is_ok());
        let first = self.registry.transition(request_id, RequestStatus::Matched, Some(match_id));
        assert(first.is_ok());
        let second = self.registry.transition(inviter, RequestStatus::Matched, Some(match_id));
        assert(second.is_ok());
        let _ = self.open.remove(inviter);
        let _ = self.invites.remove(inviter);
        let stored = self.matches.insert(record);
        assert(stored.is_ok());
        proof {
            assert(self@.requests =~= target.requests);
            assert(self@.matches =~= target.matches);
            assert(self@ == target);
        }
        Ok(made)
    }

    /// Resolves the waiting request `inviter` against `player`: registers a
    /// request of the player's own under a fresh id and returns the match
    /// that pairs the two, whatever their ratings, stored under a fresh id.
    /// Who may accept which request is for the caller to settle.
    ///
    /// Fails, changing nothing: with `RejectedInput` if the player's rating is
    /// zero; otherwise with `NotFound` if no request `inviter` is registered
    /// or it no longer waits; and with `DuplicateId` if a fresh id is already
    /// taken, which cannot be where no registered request and no stored match
    /// has an id of the form of a random UUID.
    pub fn accept_private_invite(&mut self, inviter: RequestId, player: Player) -> (outcome: Result<
        Match,
        MatchmakingError,
    >)
        requires
            old(self).wf(),
        ensures
            final(self).wf(),
            old(self)@.advances_to(final(self)@),
            player.elo > 0 && old(self)@.is_waiting(inviter) && !old(self)@.holds_random_id()
                ==> outcome.is_ok(),
            match outcome {
                Ok(m) => {
                    &&& player.elo > 0
                    &&& old(self)@.is_waiting(inviter)
                    &&& is_random_uuid(m.id)
                    &&& is_random_uuid(m.request_b)
                    &&& !old(self)@.requests.contains_key(m.request_b)
                    &&& !old(self)@.matches.contains_key(m.id)
                    &&& final(self)@ == old(self)@.accept(inviter, player@, m.request_b, m.id)
                    &&& m@ == accept_match(
                        old(self)@.requests[inviter].request,
                        player@,
                        m.request_b,
                        m.id,
                    )
                    &&& m.request_a == inviter
                },
                Err(e) => {
                    &&& final(self)@ == old(self)@
                    &&& e == MatchmakingError::RejectedInput <==> player.elo == 0
                    &&& e == MatchmakingError::NotFound <==> player.elo > 0 && !old(
                        self,
                    )@.is_waiting(inviter)
                    &&& e == MatchmakingError::DuplicateId ==> old(self)@.holds_random_id()
                    &&& e == MatchmakingError::RejectedInput || e == MatchmakingError::NotFound
                        || e == MatchmakingError::DuplicateId
                },
            },
    {
        let request_id: RequestId = fresh_id();
        let match_id: MatchId = fresh_id();
        let ghost before = self@;
        let outcome = self.accept_private_invite_with(inviter, player, request_id, match_id);
        proof {
            if before.requests.contains_key(request_id) || before.matches.contains_key(match_id) {
                assert(is_random_uuid(request_id) && is_random_uuid(match_id));
                assert(before.holds_random_id());
            }
        }
        outcome
    }

    /// Expires the head of the pool of `kind` and returns its id.
    fn expire_head(&mut self, kind: MatchType) -> (id: RequestId)
        requires
            old(self).wf(),
            old(self)@.pool(kind).len() > 0,
        ensures
            final(self).wf(),
            id == old(self)@.pool(kind)[0].id,
            final(self)@ == old(self)@.resolve(id, RequestStatus::Expired),
    {
        let ghost before = self@;
        proof {
            lemma_expire_head(before, kind);
            lemma_consistent_parts(before);
        }
        let id: RequestId = match kind {
            MatchType::Open => self.open.take(0).id,
            MatchType::Invite => self.invites.take(0).id,
        };
        let moved = self.registry.transition(id, RequestStatus::Expired, None);
        assert(moved.is_ok());
        proof {
            let target = before.resolve(id, RequestStatus::Expired);
            assert(before.pool(kind).remove(0) =~= before.pool(kind).subrange(
                1,
                before.pool(kind).len() as int,
            ));
            assert(self@.open == target.open);
            assert(self@.invites == target.invites);
            assert(self@ == target);
        }
        id
    }

    /// Expires every stale request of the pool of `kind` and adds their ids
    /// to `expired`, oldest first.
    fn expire_pool(&mut self, kind: MatchType, now: Timestamp, expired: &mut Vec<RequestId>)
        requires
            old(self).wf(),
        ensures
            final(self).wf(),
            final(self)@ == old(self)@.expire_in(kind, now),
            final(expired)@ == old(expired)@ + stale_ids(
                old(self)@.pool(kind),
                now,
                old(self)@.config,
            ),
    {
        let ghost before = self@;
        let ghost listed = expired@;
        let ghost mut k: int = 0;
        proof {
            lemma_consistent_parts(before);
            let none = before.pool(kind).subrange(0, 0);
            assert(before.requests =~= expire_ids(before.requests, none));
            assert(before.pool(kind) =~= before.pool(kind).subrange(
                0,
                before.pool(kind).len() as int,
            ));
            assert(expired@ =~= listed + before.pool(kind).subrange(0, 0).map_values(
                |r: MatchRequestView| r.id,
            ));
        }
        loop
            invariant_except_break
                self.wf(),
                before.consistent(),
                distinct_ids(before.pool(kind)),
                0 <= k <= before.pool(kind).len(),
                self@.config == before.config,
                self@.matches == before.matches,
                kind == MatchType::Open ==> self@.invites == before.invites,
                kind == MatchType::Invite ==> self@.open == before.open,
                self@.pool(kind) == before.pool(kind).subrange(k, before.pool(kind).len() as int),
                self@.requests == expire_ids(before.requests, before.pool(kind).subrange(0, k)),
                forall|i: int|
                    0 <= i < k ==> stale(#[trigger] before.pool(kind)[i], now, before.config),
                expired@ == listed + before.pool(kind).subrange(0, k).map_values(
                    |r: MatchRequestView| r.id,
                ),
            ensures
                self.wf(),
                self@ == before.expire_in(kind, now),
                expired@ == listed + stale_ids(before.pool(kind), now, before.config),
            decreases before.pool(kind).len() - k,
        {
            let gone: bool = match kind {
                MatchType::Open => self.open.len() > 0 && is_stale(
                    self.open.entry(0),
                    now,
                    &self.config,
                ),
                MatchType::Invite => self.invites.len() > 0 && is_stale(
                    self.invites.entry(0),
                    now,
                    &self.config,
                ),
            };
            if !gone {
                proof {
                    lemma_expire_in_result(before, kind, k, now);
                    let target = before.expire_in(kind, now);
                    assert(self@.open == target.open);
                    assert(self@.invites == target.invites);
                    assert(self@ == target);
                }
                break;
            }
            let ghost current = self@;
            proof {
                assert(current.pool(kind)[0] == before.pool(kind)[k]);
                lemma_expire_head(current, kind);
                lemma_pool_entry(before, kind, k);
                lemma_expire_ids_step(before.requests, before.pool(kind), k);
            }
            let id: RequestId = self.expire_head(kind);
            expired.push(id);
            proof {
                let head = before.pool(kind).subrange(0, k);
                let next = before.pool(kind).subrange(0, k + 1);
                assert(next.map_values(|r: MatchRequestView| r.id) =~= head.map_values(
                    |r: MatchRequestView| r.id,
                ).push(id));
                assert(self@.pool(kind) =~= before.pool(kind).subrange(
                    k + 1,
                    before.pool(kind).len() as int,
                ));
                k = k + 1;
            }
        }
    }

    /// Sweeps both pools at `now`: every waiting request that has waited out
    /// the configured time is expired and leaves its pool. Returns the ids of
    /// the requests expired: those of the open pool, oldest first, then those
    /// of the pool of invites.
    pub fn expire_stale(&mut self, now: Timestamp) -> (expired: Vec<RequestId>)
        requires
            old(self).wf(),
        ensures
            final(self).wf(),
            old(self)@.advances_to(final(self)@),
            final(self)@ == old(self)@.expire(now),
            expired@ == stale_ids(old(self)@.open, now, old(self)@.config) + stale_ids(
                old(self)@.invites,
                now,
                old(self)@.config,
            ),
    {
        let ghost before = self@;
        let mut expired: Vec<RequestId> = Vec::new();
        self.expire_pool(MatchType::Open, now, &mut expired);
        self.expire_pool(MatchType::Invite, now, &mut expired);
        proof {
            lemma_expire_both(before, now);
            assert(expired@ =~= stale_ids(before.open, now, before.config) + stale_ids(
                before.invites,
                now,
                before.config,
            ));
            lemma_expire_advances(before, now);
        }
        expired
    }

    /// Sweeps both pools at the time the clock shows: every waiting request
    /// that has by then waited out the configured time is expired and leaves
    /// its pool. Returns the ids of the requests expired: those of the open
    /// pool, oldest first, then those of the pool of invites.
    pub fn sweep(&mut self) -> (expired: Vec<RequestId>)
        requires
            old(self).wf(),
        ensures
            final(self).wf(),
            old(self)@.advances_to(final(self)@),
            exists|now: Timestamp|
                {
                    &&& final(self)@ == #[trigger] old(self)@.expire(now)
                    &&& expired@ == stale_ids(old(self)@.open, now, old(self)@.config) + stale_ids(
                        old(self)@.invites,
                        now,
                        old(self)@.config,
                    )
                },
    {
        let now: Timestamp = now_millis();
        self.expire_stale(now)
    }
}

} // verus!
