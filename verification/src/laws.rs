//! What holds of every consistent state of the engine, and of its
//! operations taken together.

use vstd::prelude::*;
use crate::bound::{
    base_bound,
    compatible,
    effective_bound,
    elo_gap,
    lemma_compatible_after_longer_waits,
    lemma_pair_within_reached_distance,
    waited_ms,
    widening_threshold_ms,
};
use crate::model::{accept_match, pair_match, ServiceView};
use crate::pairing::{
    greedy_pairs,
    is_first_pair,
    lemma_compatible_symmetric,
    lemma_first_pair_found,
    lemma_greedy_done,
    lemma_greedy_rest,
    lemma_greedy_step,
    no_pair,
};
use crate::partition::{
    holds_id,
    lemma_enqueued_members,
    lemma_without_id_keeps,
    lemma_without_two,
};
use crate::preservation::{
    lemma_accept_consistent,
    lemma_consistent_parts,
    lemma_enter_consistent,
    lemma_pool_entry,
    lemma_record_pairs_push,
    lemma_resolve_consistent,
    lemma_waiting_in_pool,
};
use crate::types::{
    MatchId,
    MatchRequestView,
    MatchType,
    PlayerView,
    QueueStatus,
    RequestId,
    RequestStatus,
    Timestamp,
};

verus! {

/// Two requests that the engine paired from the open pool lay, when it paired
/// them, no further apart in rating than both accepted at that moment, and
/// never further than the cap.
pub proof fn lemma_open_match_within_bound(s: ServiceView, id: MatchId)
    requires
        s.consistent(),
        s.matches.contains_key(id),
        s.matches[id].match_type == MatchType::Open,
    ensures
        s.requests.contains_key(s.matches[id].request_a),
        s.requests.contains_key(s.matches[id].request_b),
        elo_gap(s.matches[id].player_a.elo, s.matches[id].player_b.elo) <= effective_bound(
            s.requests[s.matches[id].request_a].request,
            s.requests[s.matches[id].request_b].request,
            s.matches[id].created_at,
            s.config,
        ),
        elo_gap(s.matches[id].player_a.elo, s.matches[id].player_b.elo)
            <= s.config.max_elo_diff_cap,
{
    reveal(ServiceView::consistent);
    assert(s.match_sound(s.matches[id]));
}

/// No request is resolved by two matches: two stored matches that pair one
/// request are one match.
pub proof fn lemma_at_most_one_match(s: ServiceView, request: RequestId, m1: MatchId, m2: MatchId)
    requires
        s.consistent(),
        s.matches.contains_key(m1),
        s.matches.contains_key(m2),
        s.matches[m1].references(request),
        s.matches[m2].references(request),
    ensures
        m1 == m2,
        s.resolved_by(request, m1),
{
    reveal(ServiceView::consistent);
    assert(s.match_sound(s.matches[m1]));
    assert(s.match_sound(s.matches[m2]));
}

/// A request stands in a pool exactly when the registry records it as
/// waiting, and then in the pool of its match type and in no other.
pub proof fn lemma_pooled_iff_waiting(s: ServiceView, id: RequestId)
    requires
        s.consistent(),
    ensures
        (holds_id(s.open, id) || holds_id(s.invites, id)) <==> s.is_waiting(id),
        holds_id(s.open, id) ==> s.requests[id].request.match_type == MatchType::Open,
        holds_id(s.invites, id) ==> s.requests[id].request.match_type == MatchType::Invite,
        !(holds_id(s.open, id) && holds_id(s.invites, id)),
{
    if holds_id(s.open, id) {
        let at = choose|at: int| 0 <= at < s.open.len() && s.open[at].id == id;
        lemma_pool_entry(s, MatchType::Open, at);
    }
    if holds_id(s.invites, id) {
        let at = choose|at: int| 0 <= at < s.invites.len() && s.invites[at].id == id;
        lemma_pool_entry(s, MatchType::Invite, at);
    }
    if s.is_waiting(id) {
        let at = lemma_waiting_in_pool(s, id);
    }
}

/// Cancelling twice takes effect at most once: after a cancellation of a
/// request, a second one of the same request takes no effect and changes
/// nothing.
pub proof fn lemma_cancel_twice(s: ServiceView, id: RequestId)
    requires
        s.consistent(),
    ensures
        s.cancel(id).0.consistent(),
        !s.cancel(id).0.cancel(id).1,
        s.cancel(id).0.cancel(id).0 == s.cancel(id).0,
{
    if s.is_waiting(id) {
        lemma_resolve_consistent(s, id, RequestStatus::Cancelled);
    }
}

/// A request that is cancelled takes no part in any later pairing: it stands
/// in no pool.
pub proof fn lemma_cancelled_left_pools(s: ServiceView, id: RequestId)
    requires
        s.consistent(),
        s.is_waiting(id),
    ensures
        !holds_id(s.cancel(id).0.open, id),
        !holds_id(s.cancel(id).0.invites, id),
        s.cancel(id).0.status_of(id).is_none(),
{
    lemma_resolve_consistent(s, id, RequestStatus::Cancelled);
}

/// No request starves behind its tolerance. Take a widening rate above zero
/// and a state in which pairing at `now` has run to its end. Two requests of
/// the open pool, no further apart in rating than `distance`, a distance up
/// to the cap, whose waits have both passed the threshold at which their
/// tolerances reach `distance`, do not both still wait.
pub proof fn lemma_no_starvation(
    s: ServiceView,
    a: RequestId,
    b: RequestId,
    distance: int,
    now: Timestamp,
)
    requires
        s.consistent(),
        no_pair(s.open, now, s.config),
        s.config.widen_per_second > 0,
        distance <= s.config.max_elo_diff_cap,
        a != b,
        s.requests.contains_key(a),
        s.requests.contains_key(b),
        s.requests[a].request.match_type == MatchType::Open,
        s.requests[b].request.match_type == MatchType::Open,
        elo_gap(s.requests[a].request.player.elo, s.requests[b].request.player.elo) <= distance,
        waited_ms(s.requests[a].request.player.join_time, now) >= widening_threshold_ms(
            base_bound(s.requests[a].request.max_elo_diff, s.config),
            distance,
            s.config,
        ),
        waited_ms(s.requests[b].request.player.join_time, now) >= widening_threshold_ms(
            base_bound(s.requests[b].request.max_elo_diff, s.config),
            distance,
            s.config,
        ),
    ensures
        !(s.is_waiting(a) && s.is_waiting(b)),
{
    let ra = s.requests[a].request;
    let rb = s.requests[b].request;
    lemma_pair_within_reached_distance(ra, rb, distance, now, s.config);
    lemma_compatible_symmetric(ra, rb, now, s.config);
    if s.is_waiting(a) && s.is_waiting(b) {
        let i = lemma_waiting_in_pool(s, a);
        let j = lemma_waiting_in_pool(s, b);
        assert(s.open[i] == ra);
        assert(s.open[j] == rb);
        assert(i != j);
        if i < j {
            assert(!compatible(s.open[i], s.open[j], now, s.config));
        } else {
            assert(!compatible(s.open[j], s.open[i], now, s.config));
        }
    }
}

/// No two waiting requests are of one wallet, so no match made from a pool
/// pairs a wallet with itself.
pub proof fn lemma_waiting_wallets_differ(s: ServiceView, a: RequestId, b: RequestId)
    requires
        s.consistent(),
        s.is_waiting(a),
        s.is_waiting(b),
        a != b,
    ensures
        s.requests[a].request.player.wallet_address != s.requests[b].request.player.wallet_address,
{
    reveal(ServiceView::consistent);
}

/// A pool of up to three requests yields one pair at most: where up to two
/// requests wait in the open pool, a join makes one pair at most.
pub proof fn lemma_join_pairs_small(s: ServiceView, joiner: MatchRequestView)
    requires
        s.open.len() <= 2,
    ensures
        s.join_pairs(joiner) <= 1,
{
    if joiner.match_type == MatchType::Open {
        lemma_enqueued_members(s.open, joiner);
        lemma_greedy_rest(s.enter(joiner).open, joiner.player.join_time, s.config);
    }
}

/// An open request that joins one lone waiting request makes a pair exactly
/// when the two are compatible at its join time.
pub proof fn lemma_join_pairs_lone_waiter(s: ServiceView, joiner: MatchRequestView)
    requires
        s.open.len() == 1,
        joiner.match_type == MatchType::Open,
    ensures
        s.join_pairs(joiner) == if compatible(
            s.open[0],
            joiner,
            joiner.player.join_time,
            s.config,
        ) {
            1nat
        } else {
            0nat
        },
{
    let now = joiner.player.join_time;
    let q = s.enter(joiner).open;
    lemma_enqueued_members(s.open, joiner);
    lemma_compatible_symmetric(s.open[0], joiner, now, s.config);
    if compatible(s.open[0], joiner, now, s.config) {
        assert(is_first_pair(q, 0, 1, now, s.config));
        lemma_greedy_step(q, 0, 1, now, s.config);
        lemma_greedy_done(q.remove(1).remove(0), now, s.config);
    } else {
        assert(no_pair(q, now, s.config));
        lemma_greedy_done(q, now, s.config);
    }
}

/// An open request that joins a compatible lone waiting request is paired
/// with it at once: both are then matched by the one match made, which
/// pairs them, and the open pool is empty.
pub proof fn lemma_join_pairs_at_once(s: ServiceView, joiner: MatchRequestView, id: MatchId)
    requires
        s.consistent(),
        s.open.len() == 1,
        s.admissible(joiner),
        !s.requests.contains_key(joiner.id),
        joiner.match_type == MatchType::Open,
        compatible(s.open[0], joiner, joiner.player.join_time, s.config),
    ensures
        s.join_pairs(joiner) == 1,
        s.join(joiner, seq![id]).open.len() == 0,
        s.join(joiner, seq![id]).status_of(joiner.id) == Some(
            QueueStatus::Matched { match_id: id },
        ),
        s.join(joiner, seq![id]).status_of(s.open[0].id) == Some(
            QueueStatus::Matched { match_id: id },
        ),
        s.join(joiner, seq![id]).matches.contains_key(id),
        s.join(joiner, seq![id]).matches[id].references(joiner.id),
        s.join(joiner, seq![id]).matches[id].references(s.open[0].id),
        s.join(joiner, seq![id]).matches[id].created_at == joiner.player.join_time,
{
    let now = joiner.player.join_time;
    let waiter = s.open[0];
    let e = s.enter(joiner);
    let q = e.open;
    lemma_join_pairs_lone_waiter(s, joiner);
    lemma_enqueued_members(s.open, joiner);
    lemma_compatible_symmetric(waiter, joiner, now, s.config);
    assert(is_first_pair(q, 0, 1, now, s.config));
    lemma_first_pair_found(q, 0, 1, now, s.config);
    lemma_greedy_step(q, 0, 1, now, s.config);
    lemma_greedy_done(q.remove(1).remove(0), now, s.config);
    let pair = (q[0], q[1]);
    let pairs = greedy_pairs(q, now, s.config);
    assert(pairs =~= seq![pair]);
    let none = Seq::<(MatchRequestView, MatchRequestView)>::empty();
    assert(pairs.subrange(0, 1) =~= none.push(pair));
    assert(seq![id] =~= Seq::<MatchId>::empty().push(id));
    lemma_record_pairs_push(e, none, Seq::<MatchId>::empty(), pair, id, now);
    let n = e.record_match(pair_match(q[0], q[1], id, now));
    assert(s.join(joiner, seq![id]) == n);
    lemma_enter_consistent(s, joiner);
    lemma_consistent_parts(e);
    lemma_without_two(q, 0, 1);
    lemma_pool_entry(s, MatchType::Open, 0);
}

/// Whatever the ratings of the two players, whatever tolerance the waiting
/// request asked for and whoever the accepting player is: where a player of
/// a rating above zero accepts a waiting request, under ids not yet taken,
/// the two are matched by the one match made, which pairs them, and the
/// request accepted waits no longer and has left the pools.
pub proof fn lemma_accept_pairs(
    s: ServiceView,
    inviter: RequestId,
    player: PlayerView,
    request_id: RequestId,
    match_id: MatchId,
)
    requires
        s.consistent(),
        s.is_waiting(inviter),
        player.elo > 0,
        !s.requests.contains_key(request_id),
        !s.matches.contains_key(match_id),
    ensures
        s.accept(inviter, player, request_id, match_id).consistent(),
        s.accept(inviter, player, request_id, match_id).status_of(inviter) == Some(
            QueueStatus::Matched { match_id },
        ),
        s.accept(inviter, player, request_id, match_id).status_of(request_id) == Some(
            QueueStatus::Matched { match_id },
        ),
        s.accept(inviter, player, request_id, match_id).matches.contains_key(match_id),
        s.accept(inviter, player, request_id, match_id).matches[match_id] == accept_match(
            s.requests[inviter].request,
            player,
            request_id,
            match_id,
        ),
        s.accept(inviter, player, request_id, match_id).matches[match_id].references(inviter),
        s.accept(inviter, player, request_id, match_id).matches[match_id].references(request_id),
        s.accept(inviter, player, request_id, match_id).matches[match_id].player_b == player,
        !holds_id(s.accept(inviter, player, request_id, match_id).open, inviter),
        !holds_id(s.accept(inviter, player, request_id, match_id).invites, inviter),
        !s.accept(inviter, player, request_id, match_id).is_waiting(inviter),
{
    lemma_accept_consistent(s, inviter, player, request_id, match_id);
    lemma_consistent_parts(s);
    lemma_without_id_keeps(s.open, inviter);
    lemma_without_id_keeps(s.invites, inviter);
}

/// A pair that a join makes after a shorter wait it makes after a longer one
/// too. Take two runs, each with one lone waiting request and one open
/// request that joins it, the same ratings and tolerances in both; if the
/// waiting request of the second run has waited no less when its counterpart
/// joins, and the join of the first run makes a pair, so does the join of
/// the second.
pub proof fn lemma_join_pairs_after_longer_wait(
    s1: ServiceView,
    joiner1: MatchRequestView,
    s2: ServiceView,
    joiner2: MatchRequestView,
)
    requires
        s1.config == s2.config,
        s1.open.len() == 1,
        s2.open.len() == 1,
        joiner1.match_type == MatchType::Open,
        joiner2.match_type == MatchType::Open,
        s1.open[0].player.elo == s2.open[0].player.elo,
        s1.open[0].max_elo_diff == s2.open[0].max_elo_diff,
        joiner1.player.elo == joiner2.player.elo,
        joiner1.max_elo_diff == joiner2.max_elo_diff,
        waited_ms(s1.open[0].player.join_time, joiner1.player.join_time) <= waited_ms(
            s2.open[0].player.join_time,
            joiner2.player.join_time,
        ),
    ensures
        effective_bound(s1.open[0], joiner1, joiner1.player.join_time, s1.config)
            <= effective_bound(s2.open[0], joiner2, joiner2.player.join_time, s2.config),
        s1.join_pairs(joiner1) == 1 ==> s2.join_pairs(joiner2) == 1,
{
    lemma_compatible_after_longer_waits(
        s1.open[0],
        joiner1,
        joiner1.player.join_time,
        s2.open[0],
        joiner2,
        joiner2.player.join_time,
        s1.config,
    );
    lemma_join_pairs_lone_waiter(s1, joiner1);
    lemma_join_pairs_lone_waiter(s2, joiner2);
}

/// A lone waiting request whose wait has passed the threshold at which its
/// tolerance reaches `distance` is paired by the join of an open request no
/// further away in rating than `distance` whose own tolerance is `distance`
/// or more: with a widening rate above zero and a distance up to the cap,
/// that join makes the pair.
pub proof fn lemma_join_pairs_reached(s: ServiceView, joiner: MatchRequestView, distance: int)
    requires
        s.open.len() == 1,
        joiner.match_type == MatchType::Open,
        s.config.widen_per_second > 0,
        distance <= s.config.max_elo_diff_cap,
        elo_gap(s.open[0].player.elo, joiner.player.elo) <= distance,
        base_bound(joiner.max_elo_diff, s.config) >= distance,
        waited_ms(s.open[0].player.join_time, joiner.player.join_time) >= widening_threshold_ms(
            base_bound(s.open[0].max_elo_diff, s.config),
            distance,
            s.config,
        ),
    ensures
        compatible(s.open[0], joiner, joiner.player.join_time, s.config),
        s.join_pairs(joiner) == 1,
{
    lemma_pair_within_reached_distance(
        s.open[0],
        joiner,
        distance,
        joiner.player.join_time,
        s.config,
    );
    lemma_join_pairs_lone_waiter(s, joiner);
}

} // verus!
