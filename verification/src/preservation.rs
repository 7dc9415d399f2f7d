//! Why the engine's state stays consistent: each operation, taken as a step
//! of the state that `model` describes, keeps what must hold of it.

use vstd::prelude::*;
use crate::bound::{compatible, stale};
use crate::config::MatchmakingConfig;
use crate::model::{
    accept_match,
    accepting_request,
    expire_ids,
    fresh_at,
    pair_match,
    stale_at,
    stale_ids,
    valid_request,
    ServiceView,
};
use crate::pairing::{greedy_pairs, greedy_rest, lemma_first_pair_some, lemma_greedy_step};
use crate::partition::{
    distinct_ids,
    enqueued,
    holds_id,
    insertion_index,
    lemma_enqueued_distinct,
    lemma_enqueued_members,
    lemma_enqueued_sorted,
    lemma_without_id_absent,
    lemma_without_id_distinct,
    lemma_without_id_keeps,
    lemma_without_two,
    sorted_by_join_time,
    without_id,
};
use crate::registry::{coherent_records, record_coherent, resolved_record};
use crate::store::keyed_by_id;
use crate::types::{
    MatchId,
    MatchRequestView,
    MatchType,
    MatchView,
    PlayerView,
    RequestId,
    RequestRecordView,
    RequestStatus,
    Timestamp,
};

verus! {

/// The empty state is consistent.
pub proof fn lemma_empty_consistent(config: MatchmakingConfig)
    ensures
        ServiceView::empty(config).consistent(),
{
    reveal(ServiceView::consistent);
}

/// A request that waits stands in a pool, and so does its wallet.
pub proof fn lemma_waiting_in_pool(s: ServiceView, id: RequestId) -> (at: int)
    requires
        s.consistent(),
        s.is_waiting(id),
    ensures
        0 <= at < s.pool(s.requests[id].request.match_type).len(),
        s.pool(s.requests[id].request.match_type)[at] == s.requests[id].request,
        s.pool(s.requests[id].request.match_type)[at].id == id,
        s.wallet_waits(s.requests[id].request.player.wallet_address),
{
    reveal(ServiceView::consistent);
    let kind = s.requests[id].request.match_type;
    let q = s.pool(kind);
    let at = choose|at: int| 0 <= at < q.len() && q[at].id == id;
    assert(s.pooled(q[at], kind));
    assert(q[at].player.wallet_address == s.requests[id].request.player.wallet_address);
    at
}

/// A request that stands in a pool is registered as waiting, as it stands
/// there, and is of the pool's match type.
pub proof fn lemma_pool_entry(s: ServiceView, kind: MatchType, at: int)
    requires
        s.consistent(),
        0 <= at < s.pool(kind).len(),
    ensures
        s.pooled(s.pool(kind)[at], kind),
        s.is_waiting(s.pool(kind)[at].id),
        s.requests[s.pool(kind)[at].id].request == s.pool(kind)[at],
{
    reveal(ServiceView::consistent);
    let q = s.pool(kind);
    assert(s.pooled(q[at], kind));
}

/// A pool holds no id of a request that does not wait or is of another
/// match type.
pub proof fn lemma_not_in_pool(s: ServiceView, kind: MatchType, id: RequestId)
    requires
        s.consistent(),
        !s.is_waiting(id) || s.requests[id].request.match_type != kind,
    ensures
        !holds_id(s.pool(kind), id),
{
    reveal(ServiceView::consistent);
    let q = s.pool(kind);
    if holds_id(q, id) {
        let at = choose|at: int| 0 <= at < q.len() && q[at].id == id;
        lemma_pool_entry(s, kind, at);
    }
}

/// Admitting an admissible request under an id not yet registered keeps the
/// state consistent.
pub proof fn lemma_enter_consistent(s: ServiceView, request: MatchRequestView)
    requires
        s.consistent(),
        s.admissible(request),
        !s.requests.contains_key(request.id),
    ensures
        s.enter(request).consistent(),
        s.advances_to(s.enter(request)),
        s.enter(request).is_waiting(request.id),
{
    reveal(ServiceView::consistent);
    let n = s.enter(request);
    let kind = request.match_type;
    let q = s.pool(kind);
    let at = insertion_index(q, request.player.join_time);
    lemma_not_in_pool(s, kind, request.id);
    lemma_enqueued_sorted(q, request);
    lemma_enqueued_distinct(q, request);
    lemma_enqueued_members(q, request);
    assert(n.pool(kind) == enqueued(q, request));
    assert(n.pools_ordered());
    assert(coherent_records(n.requests)) by {
        assert forall|id: RequestId| n.requests.contains_key(id) implies record_coherent(
            id,
            #[trigger] n.requests[id],
        ) by {
            if id != request.id {
                assert(record_coherent(id, s.requests[id]));
            }
        }
    }
    assert(n.pools_registered()) by {
        assert forall|i: int| 0 <= i < n.open.len() implies n.pooled(
            #[trigger] n.open[i],
            MatchType::Open,
        ) by {
            if kind == MatchType::Open {
                if i != at {
                    let k = if i < at { i } else { i - 1 };
                    assert(n.open[i] == s.open[k]);
                    assert(s.pooled(s.open[k], MatchType::Open));
                }
            } else {
                assert(s.pooled(s.open[i], MatchType::Open));
            }
        }
        assert forall|i: int| 0 <= i < n.invites.len() implies n.pooled(
            #[trigger] n.invites[i],
            MatchType::Invite,
        ) by {
            if kind == MatchType::Invite {
                if i != at {
                    let k = if i < at { i } else { i - 1 };
                    assert(n.invites[i] == s.invites[k]);
                    assert(s.pooled(s.invites[k], MatchType::Invite));
                }
            } else {
                assert(s.pooled(s.invites[i], MatchType::Invite));
            }
        }
    }
    assert(n.waiting_pooled()) by {
        assert forall|id: RequestId| #[trigger] n.is_waiting(id) implies holds_id(
            n.pool(n.requests[id].request.match_type),
            id,
        ) by {
            if id == request.id {
                assert(n.pool(kind)[at].id == id);
            } else {
                assert(s.is_waiting(id));
                let k = lemma_waiting_in_pool(s, id);
                let other = s.requests[id].request.match_type;
                if other == kind {
                    let i = if k < at { k } else { k + 1 };
                    assert(n.pool(kind)[i] == q[k]);
                } else {
                    assert(n.pool(other) == s.pool(other));
                }
            }
        }
    }
    assert(n.matches_sound()) by {
        assert forall|id: MatchId| n.matches.contains_key(id) implies n.match_sound(
            #[trigger] n.matches[id],
        ) by {
            assert(s.match_sound(s.matches[id]));
        }
    }
    assert(n.matched_stored()) by {
        assert forall|id: RequestId|
            n.requests.contains_key(id) && (#[trigger] n.requests[id]).status
                == RequestStatus::Matched implies {
            &&& n.requests[id].match_id.is_some()
            &&& n.matches.contains_key(n.requests[id].match_id.unwrap())
            &&& n.matches[n.requests[id].match_id.unwrap()].references(id)
        } by {
            assert(s.requests[id].status == RequestStatus::Matched);
        }
    }
    assert(n.wallets_apart()) by {
        assert forall|x: RequestId, y: RequestId|
            #![trigger n.is_waiting(x), n.is_waiting(y)]
            n.is_waiting(x) && n.is_waiting(y) && x != y implies n.requests[x].request.player
                .wallet_address != n.requests[y].request.player.wallet_address by {
            if x == request.id {
                assert(s.is_waiting(y));
                let k = lemma_waiting_in_pool(s, y);
            } else if y == request.id {
                assert(s.is_waiting(x));
                let k = lemma_waiting_in_pool(s, x);
            } else {
                assert(s.is_waiting(x) && s.is_waiting(y));
            }
        }
    }
    assert(n.requests_valid()) by {
        assert forall|id: RequestId| n.requests.contains_key(id) implies valid_request(
            (#[trigger] n.requests[id]).request,
        ) by {
            if id != request.id {
                assert(valid_request(s.requests[id].request));
            }
        }
    }
}

/// Taking the request `id` out of a consistent state's pools leaves pools
/// that are ordered, hold no id twice, and hold every other request they
/// held.
proof fn lemma_pools_without(s: ServiceView, id: RequestId)
    requires
        s.consistent(),
    ensures
        sorted_by_join_time(without_id(s.open, id)),
        sorted_by_join_time(without_id(s.invites, id)),
        distinct_ids(without_id(s.open, id)),
        distinct_ids(without_id(s.invites, id)),
        forall|k: int|
            0 <= k < without_id(s.open, id).len() ==> s.pooled(
                #[trigger] without_id(s.open, id)[k],
                MatchType::Open,
            ) && without_id(s.open, id)[k].id != id,
        forall|k: int|
            0 <= k < without_id(s.invites, id).len() ==> s.pooled(
                #[trigger] without_id(s.invites, id)[k],
                MatchType::Invite,
            ) && without_id(s.invites, id)[k].id != id,
        forall|other: RequestId, kind: MatchType|
            other != id && holds_id(s.pool(kind), other) ==> #[trigger] holds_id(
                without_id(s.pool(kind), id),
                other,
            ),
{
    reveal(ServiceView::consistent);
    lemma_without_id_keeps(s.open, id);
    lemma_without_id_keeps(s.invites, id);
    let o = without_id(s.open, id);
    let v = without_id(s.invites, id);
    assert forall|k: int| 0 <= k < o.len() implies s.pooled(#[trigger] o[k], MatchType::Open)
        && o[k].id != id by {
        assert(s.open.contains(o[k]));
        let j = choose|j: int| 0 <= j < s.open.len() && s.open[j] == o[k];
        assert(s.pooled(s.open[j], MatchType::Open));
    }
    assert forall|k: int| 0 <= k < v.len() implies s.pooled(#[trigger] v[k], MatchType::Invite)
        && v[k].id != id by {
        assert(s.invites.contains(v[k]));
        let j = choose|j: int| 0 <= j < s.invites.len() && s.invites[j] == v[k];
        assert(s.pooled(s.invites[j], MatchType::Invite));
    }
    assert forall|other: RequestId, kind: MatchType|
        other != id && holds_id(s.pool(kind), other) implies #[trigger] holds_id(
        without_id(s.pool(kind), id),
        other,
    ) by {
        let q = s.pool(kind);
        let j = choose|j: int| 0 <= j < q.len() && q[j].id == other;
        assert(without_id(q, id).contains(q[j]));
        let k = choose|k: int| 0 <= k < without_id(q, id).len() && without_id(q, id)[k] == q[j];
        assert(without_id(q, id)[k].id == other);
    }
}

/// Resolving a waiting request as cancelled or expired keeps the state
/// consistent, and the request no longer waits.
pub proof fn lemma_resolve_consistent(s: ServiceView, id: RequestId, status: RequestStatus)
    requires
        s.consistent(),
        s.is_waiting(id),
        status == RequestStatus::Cancelled || status == RequestStatus::Expired,
    ensures
        s.resolve(id, status).consistent(),
        s.advances_to(s.resolve(id, status)),
        !s.resolve(id, status).is_waiting(id),
        !holds_id(s.resolve(id, status).open, id),
        !holds_id(s.resolve(id, status).invites, id),
{
    reveal(ServiceView::consistent);
    let n = s.resolve(id, status);
    lemma_pools_without(s, id);
    lemma_without_id_keeps(s.open, id);
    lemma_without_id_keeps(s.invites, id);
    assert(coherent_records(n.requests)) by {
        assert forall|x: RequestId| n.requests.contains_key(x) implies record_coherent(
            x,
            #[trigger] n.requests[x],
        ) by {
            assert(record_coherent(x, s.requests[x]));
        }
    }
    assert(n.pools_registered()) by {
        assert forall|i: int| 0 <= i < n.open.len() implies n.pooled(
            #[trigger] n.open[i],
            MatchType::Open,
        ) by {
            assert(s.pooled(n.open[i], MatchType::Open));
        }
        assert forall|i: int| 0 <= i < n.invites.len() implies n.pooled(
            #[trigger] n.invites[i],
            MatchType::Invite,
        ) by {
            assert(s.pooled(n.invites[i], MatchType::Invite));
        }
    }
    assert(n.waiting_pooled()) by {
        assert forall|x: RequestId| #[trigger] n.is_waiting(x) implies holds_id(
            n.pool(n.requests[x].request.match_type),
            x,
        ) by {
            assert(x != id);
            assert(s.is_waiting(x));
            let kind = s.requests[x].request.match_type;
            assert(holds_id(s.pool(kind), x));
            assert(holds_id(without_id(s.pool(kind), id), x));
            assert(n.pool(kind) == without_id(s.pool(kind), id));
        }
    }
    assert(n.matches_sound()) by {
        assert forall|m: MatchId| n.matches.contains_key(m) implies n.match_sound(
            #[trigger] n.matches[m],
        ) by {
            assert(s.match_sound(s.matches[m]));
        }
    }
    assert(n.matched_stored()) by {
        assert forall|x: RequestId|
            n.requests.contains_key(x) && (#[trigger] n.requests[x]).status
                == RequestStatus::Matched implies {
            &&& n.requests[x].match_id.is_some()
            &&& n.matches.contains_key(n.requests[x].match_id.unwrap())
            &&& n.matches[n.requests[x].match_id.unwrap()].references(x)
        } by {
            assert(s.requests[x].status == RequestStatus::Matched);
        }
    }
    assert(n.wallets_apart()) by {
        assert forall|x: RequestId, y: RequestId|
            #![trigger n.is_waiting(x), n.is_waiting(y)]
            n.is_waiting(x) && n.is_waiting(y) && x != y implies n.requests[x].request.player
                .wallet_address != n.requests[y].request.player.wallet_address by {
            assert(s.is_waiting(x) && s.is_waiting(y));
        }
    }
    assert(n.requests_valid()) by {
        assert forall|x: RequestId| n.requests.contains_key(x) implies valid_request(
            (#[trigger] n.requests[x]).request,
        ) by {
            assert(valid_request(s.requests[x].request));
        }
    }
}

/// Making a match that may be made keeps the state consistent; both requests
/// are then resolved by it and wait no longer.
pub proof fn lemma_record_match_consistent(s: ServiceView, m: MatchView)
    requires
        s.consistent(),
        s.may_record(m),
    ensures
        s.record_match(m).consistent(),
        s.advances_to(s.record_match(m)),
        s.record_match(m).resolved_by(m.request_a, m.id),
        s.record_match(m).resolved_by(m.request_b, m.id),
        s.record_match(m).matches.contains_key(m.id),
        s.record_match(m).matches[m.id] == m,
{
    reveal(ServiceView::consistent);
    let n = s.record_match(m);
    let a = m.request_a;
    let b = m.request_b;
    lemma_pools_without(s, a);
    lemma_without_id_keeps(s.open, a);
    lemma_without_id_keeps(s.invites, a);
    let o1 = without_id(s.open, a);
    let v1 = without_id(s.invites, a);
    lemma_without_id_keeps(o1, b);
    lemma_without_id_keeps(v1, b);
    assert(n.pools_ordered());
    assert(coherent_records(n.requests)) by {
        assert forall|x: RequestId| n.requests.contains_key(x) implies record_coherent(
            x,
            #[trigger] n.requests[x],
        ) by {
            assert(record_coherent(x, s.requests[x]));
        }
    }
    assert(keyed_by_id(n.matches));
    assert(n.pools_registered()) by {
        assert forall|i: int| 0 <= i < n.open.len() implies n.pooled(
            #[trigger] n.open[i],
            MatchType::Open,
        ) by {
            assert(o1.contains(n.open[i]));
            let j = choose|j: int| 0 <= j < o1.len() && o1[j] == n.open[i];
            assert(s.pooled(o1[j], MatchType::Open));
        }
        assert forall|i: int| 0 <= i < n.invites.len() implies n.pooled(
            #[trigger] n.invites[i],
            MatchType::Invite,
        ) by {
            assert(v1.contains(n.invites[i]));
            let j = choose|j: int| 0 <= j < v1.len() && v1[j] == n.invites[i];
            assert(s.pooled(v1[j], MatchType::Invite));
        }
    }
    assert(n.waiting_pooled()) by {
        assert forall|x: RequestId| #[trigger] n.is_waiting(x) implies holds_id(
            n.pool(n.requests[x].request.match_type),
            x,
        ) by {
            assert(x != a && x != b);
            assert(s.is_waiting(x));
            let kind = s.requests[x].request.match_type;
            assert(holds_id(s.pool(kind), x));
            let q1 = without_id(s.pool(kind), a);
            assert(holds_id(q1, x));
            let j = choose|j: int| 0 <= j < q1.len() && q1[j].id == x;
            assert(without_id(q1, b).contains(q1[j]));
            let q2 = without_id(q1, b);
            let k = choose|k: int| 0 <= k < q2.len() && q2[k] == q1[j];
            assert(q2[k].id == x);
            assert(n.pool(kind) == q2);
        }
    }
    assert(n.matches_sound()) by {
        assert forall|x: MatchId| n.matches.contains_key(x) implies n.match_sound(
            #[trigger] n.matches[x],
        ) by {
            if x != m.id {
                assert(s.match_sound(s.matches[x]));
            }
        }
    }
    assert(n.matched_stored()) by {
        assert forall|x: RequestId|
            n.requests.contains_key(x) && (#[trigger] n.requests[x]).status
                == RequestStatus::Matched implies {
            &&& n.requests[x].match_id.is_some()
            &&& n.matches.contains_key(n.requests[x].match_id.unwrap())
            &&& n.matches[n.requests[x].match_id.unwrap()].references(x)
        } by {
            if x != a && x != b {
                assert(s.requests[x].status == RequestStatus::Matched);
            }
        }
    }
    assert(n.wallets_apart()) by {
        assert forall|x: RequestId, y: RequestId|
            #![trigger n.is_waiting(x), n.is_waiting(y)]
            n.is_waiting(x) && n.is_waiting(y) && x != y implies n.requests[x].request.player
                .wallet_address != n.requests[y].request.player.wallet_address by {
            assert(s.is_waiting(x) && s.is_waiting(y));
        }
    }
    assert(n.requests_valid()) by {
        assert forall|x: RequestId| n.requests.contains_key(x) implies valid_request(
            (#[trigger] n.requests[x]).request,
        ) by {
            assert(valid_request(s.requests[x].request));
        }
    }
}

/// A state may follow itself, and what may follow a follower may follow.
pub proof fn lemma_advances_transitive(s: ServiceView, t: ServiceView, u: ServiceView)
    requires
        s.advances_to(t),
        t.advances_to(u),
    ensures
        s.advances_to(s),
        s.advances_to(u),
{
    assert forall|id: RequestId| #[trigger] s.requests.contains_key(id) implies {
        &&& u.requests.contains_key(id)
        &&& u.requests[id].request == s.requests[id].request
        &&& s.requests[id].status != RequestStatus::Waiting ==> u.requests[id] == s.requests[id]
    } by {
        assert(t.requests.contains_key(id));
    }
    assert forall|id: MatchId| #[trigger] s.matches.contains_key(id) implies u.matches.contains_key(
        id,
    ) && u.matches[id] == s.matches[id] by {
        assert(t.matches.contains_key(id));
    }
}

/// Accepting a waiting request, under ids not yet taken, keeps the state
/// consistent.
pub proof fn lemma_accept_consistent(
    s: ServiceView,
    inviter: RequestId,
    player: PlayerView,
    request_id: RequestId,
    match_id: MatchId,
)
    requires
        s.consistent(),
        s.is_waiting(inviter),
        player.elo > 0,
        !s.requests.contains_key(request_id),
        !s.matches.contains_key(match_id),
    ensures
        s.accept(inviter, player, request_id, match_id).consistent(),
        s.advances_to(s.accept(inviter, player, request_id, match_id)),
{
    reveal(ServiceView::consistent);
    let n = s.accept(inviter, player, request_id, match_id);
    let invite = s.requests[inviter].request;
    let answer = accepting_request(invite, player, request_id);
    let m = accept_match(invite, player, request_id, match_id);
    lemma_pools_without(s, inviter);
    lemma_without_id_keeps(s.open, inviter);
    lemma_without_id_keeps(s.invites, inviter);
    assert(record_coherent(inviter, s.requests[inviter]));
    assert(n.pools_ordered());
    assert(coherent_records(n.requests)) by {
        assert forall|x: RequestId| n.requests.contains_key(x) implies record_coherent(
            x,
            #[trigger] n.requests[x],
        ) by {
            if x != request_id {
                assert(record_coherent(x, s.requests[x]));
            }
        }
    }
    assert(keyed_by_id(n.matches));
    assert(n.pools_registered()) by {
        assert forall|i: int| 0 <= i < n.open.len() implies n.pooled(
            #[trigger] n.open[i],
            MatchType::Open,
        ) by {
            assert(s.pooled(n.open[i], MatchType::Open));
        }
        assert forall|i: int| 0 <= i < n.invites.len() implies n.pooled(
            #[trigger] n.invites[i],
            MatchType::Invite,
        ) by {
            assert(s.pooled(n.invites[i], MatchType::Invite));
        }
    }
    assert(n.waiting_pooled()) by {
        assert forall|x: RequestId| #[trigger] n.is_waiting(x) implies holds_id(
            n.pool(n.requests[x].request.match_type),
            x,
        ) by {
            assert(x != inviter && x != request_id);
            assert(s.is_waiting(x));
            let kind = s.requests[x].request.match_type;
            assert(holds_id(s.pool(kind), x));
            assert(holds_id(without_id(s.pool(kind), inviter), x));
            assert(n.pool(kind) == without_id(s.pool(kind), inviter));
        }
    }
    assert(n.matches_sound()) by {
        assert forall|x: MatchId| n.matches.contains_key(x) implies n.match_sound(
            #[trigger] n.matches[x],
        ) by {
            if x != match_id {
                assert(s.match_sound(s.matches[x]));
            }
        }
    }
    assert(n.matched_stored()) by {
        assert forall|x: RequestId|
            n.requests.contains_key(x) && (#[trigger] n.requests[x]).status
                == RequestStatus::Matched implies {
            &&& n.requests[x].match_id.is_some()
            &&& n.matches.contains_key(n.requests[x].match_id.unwrap())
            &&& n.matches[n.requests[x].match_id.unwrap()].references(x)
        } by {
            if x != inviter && x != request_id {
                assert(s.requests[x].status == RequestStatus::Matched);
            }
        }
    }
    assert(n.wallets_apart()) by {
        assert forall|x: RequestId, y: RequestId|
            #![trigger n.is_waiting(x), n.is_waiting(y)]
            n.is_waiting(x) && n.is_waiting(y) && x != y implies n.requests[x].request.player
                .wallet_address != n.requests[y].request.player.wallet_address by {
            assert(s.is_waiting(x) && s.is_waiting(y));
        }
    }
    assert(n.requests_valid()) by {
        assert forall|x: RequestId| n.requests.contains_key(x) implies valid_request(
            (#[trigger] n.requests[x]).request,
        ) by {
            if x != request_id {
                assert(valid_request(s.requests[x].request));
            }
        }
    }
}

/// Matching one more pair after a run of pairs is matching the longer run.
pub proof fn lemma_record_pairs_push(
    s: ServiceView,
    pairs: Seq<(MatchRequestView, MatchRequestView)>,
    ids: Seq<MatchId>,
    pair: (MatchRequestView, MatchRequestView),
    id: MatchId,
    now: Timestamp,
)
    requires
        pairs.len() == ids.len(),
    ensures
        s.record_pairs(pairs.push(pair), ids.push(id), now) == s.record_pairs(
            pairs,
            ids,
            now,
        ).record_match(pair_match(pair.0, pair.1, id, now)),
{
    assert(pairs.push(pair).drop_last() =~= pairs);
    assert(ids.push(id).drop_last() =~= ids);
}

/// The parts of consistency that speak of the registry, the store and the
/// pools each by itself.
pub proof fn lemma_consistent_parts(s: ServiceView)
    requires
        s.consistent(),
    ensures
        coherent_records(s.requests),
        keyed_by_id(s.matches),
        s.pools_ordered(),
{
    reveal(ServiceView::consistent);
}

/// What pairing the requests at `i` and `j` of the open pool makes of a
/// consistent state: the match may be made, the two requests leave the open
/// pool, the pool of invites stays as it is, and the state stays consistent.
pub proof fn lemma_pair_at(s: ServiceView, i: int, j: int, match_id: MatchId, now: Timestamp)
    requires
        s.consistent(),
        0 <= i < j < s.open.len(),
        compatible(s.open[i], s.open[j], now, s.config),
        !s.matches.contains_key(match_id),
    ensures
        s.is_waiting(s.open[i].id),
        s.is_waiting(s.open[j].id),
        s.open[i].id != s.open[j].id,
        s.requests[s.open[i].id].request == s.open[i],
        s.requests[s.open[j].id].request == s.open[j],
        s.may_record(pair_match(s.open[i], s.open[j], match_id, now)),
        s.record_match(pair_match(s.open[i], s.open[j], match_id, now)).consistent(),
        s.record_match(pair_match(s.open[i], s.open[j], match_id, now)).open == s.open.remove(
            j,
        ).remove(i),
        s.record_match(pair_match(s.open[i], s.open[j], match_id, now)).invites == s.invites,
        s.advances_to(s.record_match(pair_match(s.open[i], s.open[j], match_id, now))),
        s.only_matches_to(s.record_match(pair_match(s.open[i], s.open[j], match_id, now))),
{
    let m = pair_match(s.open[i], s.open[j], match_id, now);
    let a = s.open[i].id;
    let b = s.open[j].id;
    lemma_pool_entry(s, MatchType::Open, i);
    lemma_pool_entry(s, MatchType::Open, j);
    lemma_consistent_parts(s);
    lemma_without_two(s.open, i, j);
    assert(s.may_record(m));
    assert(without_id(without_id(s.invites, a), b) == s.invites) by {
        lemma_not_in_pool(s, MatchType::Invite, a);
        lemma_not_in_pool(s, MatchType::Invite, b);
        lemma_without_id_absent(s.invites, a);
        lemma_without_id_absent(s.invites, b);
    }
    lemma_record_match_consistent(s, m);
    lemma_record_match_only_matches(s, m);
}

/// What pairing the next two requests of the open pool makes of a consistent
/// state: the state stays consistent, the pair is the first of those the pool
/// yields, and the pool that is left yields the others.
pub proof fn lemma_pair_next(s: ServiceView, match_id: MatchId, now: Timestamp)
    requires
        s.consistent(),
        s.next_pair(now).is_some(),
        !s.matches.contains_key(match_id),
    ensures
        s.pair_next(match_id, now).consistent(),
        s.pair_next(match_id, now).config == s.config,
        s.pair_next(match_id, now).matches.contains_key(match_id),
        s.pair_next(match_id, now).open.len() + 2 == s.open.len(),
        s.advances_to(s.pair_next(match_id, now)),
        s.only_matches_to(s.pair_next(match_id, now)),
        greedy_pairs(s.open, now, s.config) == seq![s.next_pair(now).unwrap()] + greedy_pairs(
            s.pair_next(match_id, now).open,
            now,
            s.config,
        ),
        greedy_rest(s.open, now, s.config) == greedy_rest(
            s.pair_next(match_id, now).open,
            now,
            s.config,
        ),
{
    let (i, j) = lemma_first_pair_some(s.open, now, s.config);
    lemma_pair_at(s, i, j, match_id, now);
    lemma_greedy_step(s.open, i, j, now, s.config);
}

/// Making a match changes the registry only by the two requests it resolves,
/// which waited and are now matched.
pub proof fn lemma_record_match_only_matches(s: ServiceView, m: MatchView)
    requires
        s.is_waiting(m.request_a),
        s.is_waiting(m.request_b),
    ensures
        s.only_matches_to(s.record_match(m)),
{
}

/// A change of the registry by matches only, followed by another, is a
/// change by matches only.
pub proof fn lemma_only_matches_transitive(s: ServiceView, t: ServiceView, u: ServiceView)
    requires
        s.only_matches_to(t),
        t.only_matches_to(u),
    ensures
        s.only_matches_to(s),
        s.only_matches_to(u),
{
    assert forall|x: RequestId| #[trigger] s.requests.contains_key(x) implies {
        &&& u.requests.contains_key(x)
        &&& u.requests[x] == s.requests[x] || (s.requests[x].status == RequestStatus::Waiting
            && u.requests[x].status == RequestStatus::Matched)
    } by {
        assert(t.requests.contains_key(x));
    }
}

/// A registered request that waits or is matched has a status to report.
pub proof fn lemma_status_known(s: ServiceView, id: RequestId)
    requires
        s.consistent(),
        s.requests.contains_key(id),
        s.requests[id].status == RequestStatus::Waiting || s.requests[id].status
            == RequestStatus::Matched,
    ensures
        s.status_of(id).is_some(),
{
    reveal(ServiceView::consistent);
    if s.requests[id].status == RequestStatus::Waiting {
        assert(s.is_waiting(id));
    } else {
        assert(record_coherent(id, s.requests[id]));
    }
}

/// In a pool ordered by join time the stale requests stand ahead of the
/// others: if the requests ahead of `k` are stale and the one at `k` is not,
/// the stale ones are those ahead of `k`.
pub proof fn lemma_stale_prefix(
    q: Seq<MatchRequestView>,
    k: int,
    now: Timestamp,
    config: MatchmakingConfig,
)
    requires
        sorted_by_join_time(q),
        0 <= k <= q.len(),
        forall|i: int| 0 <= i < k ==> stale(#[trigger] q[i], now, config),
        k < q.len() ==> !stale(q[k], now, config),
    ensures
        q.filter(fresh_at(now, config)) == q.subrange(k, q.len() as int),
        q.filter(stale_at(now, config)) == q.subrange(0, k),
        forall|i: int| k <= i < q.len() ==> !stale(#[trigger] q[i], now, config),
    decreases q.len(),
{
    assert forall|i: int| k <= i < q.len() implies !stale(#[trigger] q[i], now, config) by {
        assert(q[k].player.join_time <= q[i].player.join_time);
    }
    if q.len() == 0 {
        reveal(Seq::filter);
        assert(q.filter(fresh_at(now, config)) =~= q.subrange(k, q.len() as int));
        assert(q.filter(stale_at(now, config)) =~= q.subrange(0, k));
    } else {
        let rest = q.drop_last();
        let last = q.last();
        assert(q == rest.push(last));
        rest.lemma_filter_push(last, fresh_at(now, config));
        rest.lemma_filter_push(last, stale_at(now, config));
        let kk = if k == q.len() { k - 1 } else { k };
        assert forall|i: int| 0 <= i < kk implies stale(#[trigger] rest[i], now, config) by {
            assert(rest[i] == q[i]);
        }
        if kk < rest.len() {
            assert(rest[kk] == q[kk]);
        }
        lemma_stale_prefix(rest, kk, now, config);
        if k == q.len() {
            assert(stale(q[k - 1], now, config));
            assert(q.filter(fresh_at(now, config)) =~= q.subrange(k, q.len() as int));
            assert(q.filter(stale_at(now, config)) =~= q.subrange(0, k));
        } else {
            assert(!stale(q[q.len() - 1], now, config));
            assert(q.filter(fresh_at(now, config)) =~= q.subrange(k, q.len() as int));
            assert(q.filter(stale_at(now, config)) =~= q.subrange(0, k));
        }
    }
}

/// Expiring the head of a pool of a consistent state is resolving it: the
/// pool loses its head, the other pool stays as it is.
pub proof fn lemma_expire_head(s: ServiceView, kind: MatchType)
    requires
        s.consistent(),
        s.pool(kind).len() > 0,
    ensures
        s.is_waiting(s.pool(kind)[0].id),
        s.resolve(s.pool(kind)[0].id, RequestStatus::Expired).consistent(),
        s.resolve(s.pool(kind)[0].id, RequestStatus::Expired).pool(kind) == s.pool(kind).subrange(
            1,
            s.pool(kind).len() as int,
        ),
        kind == MatchType::Open ==> s.resolve(s.pool(kind)[0].id, RequestStatus::Expired).invites
            == s.invites,
        kind == MatchType::Invite ==> s.resolve(s.pool(kind)[0].id, RequestStatus::Expired).open
            == s.open,
        s.advances_to(s.resolve(s.pool(kind)[0].id, RequestStatus::Expired)),
{
    let q = s.pool(kind);
    let id = q[0].id;
    lemma_pool_entry(s, kind, 0);
    lemma_consistent_parts(s);
    lemma_resolve_consistent(s, id, RequestStatus::Expired);
    lemma_without_id_distinct(q, 0);
    assert(q.remove(0) =~= q.subrange(1, q.len() as int));
    let other = if kind == MatchType::Open {
        MatchType::Invite
    } else {
        MatchType::Open
    };
    lemma_not_in_pool(s, other, id);
    lemma_without_id_absent(s.pool(other), id);
}

/// One more request expired: the registry after the requests ahead of `k`
/// have expired, with the request at `k` resolved as expired, is the
/// registry after the requests up to `k` have expired.
pub proof fn lemma_expire_ids_step(
    requests: Map<RequestId, RequestRecordView>,
    q: Seq<MatchRequestView>,
    k: int,
)
    requires
        distinct_ids(q),
        0 <= k < q.len(),
        requests.contains_key(q[k].id),
    ensures
        expire_ids(requests, q.subrange(0, k)).insert(
            q[k].id,
            resolved_record(
                expire_ids(requests, q.subrange(0, k))[q[k].id],
                RequestStatus::Expired,
                None,
            ),
        ) == expire_ids(requests, q.subrange(0, k + 1)),
{
    let head = q.subrange(0, k);
    let next = q.subrange(0, k + 1);
    let left = expire_ids(requests, head).insert(
        q[k].id,
        resolved_record(expire_ids(requests, head)[q[k].id], RequestStatus::Expired, None),
    );
    let right = expire_ids(requests, next);
    if holds_id(head, q[k].id) {
        let i = choose|i: int| 0 <= i < head.len() && head[i].id == q[k].id;
        assert(head[i] == q[i]);
        assert(q[i].id != q[k].id);
    }
    assert(next[k] == q[k]);
    assert forall|id: RequestId| holds_id(next, id) <==> holds_id(head, id) || id == q[k].id by {
        if holds_id(next, id) {
            let i = choose|i: int| 0 <= i < next.len() && next[i].id == id;
            if i < k {
                assert(head[i] == next[i]);
            }
        }
        if holds_id(head, id) {
            let i = choose|i: int| 0 <= i < head.len() && head[i].id == id;
            assert(next[i] == head[i]);
        }
    }
    assert(left =~= right);
}

/// What a sweep of one pool comes to: if the requests ahead of `k` in the
/// pool are stale and the one at `k` is not, the sweep expires those ahead of
/// `k` and leaves the rest of the pool.
pub proof fn lemma_expire_in_result(s: ServiceView, kind: MatchType, k: int, now: Timestamp)
    requires
        s.consistent(),
        0 <= k <= s.pool(kind).len(),
        forall|i: int| 0 <= i < k ==> stale(#[trigger] s.pool(kind)[i], now, s.config),
        k < s.pool(kind).len() ==> !stale(s.pool(kind)[k], now, s.config),
    ensures
        s.expire_in(kind, now).requests == expire_ids(s.requests, s.pool(kind).subrange(0, k)),
        s.expire_in(kind, now).pool(kind) == s.pool(kind).subrange(k, s.pool(kind).len() as int),
        stale_ids(s.pool(kind), now, s.config) == s.pool(kind).subrange(0, k).map_values(
            |r: MatchRequestView| r.id,
        ),
{
    let q = s.pool(kind);
    let head = q.subrange(0, k);
    lemma_consistent_parts(s);
    lemma_stale_prefix(q, k, now, s.config);
    let left = s.expire_in(kind, now).requests;
    let right = expire_ids(s.requests, head);
    assert forall|id: RequestId| s.requests.contains_key(id) implies left[id] == right[id] by {
        if holds_id(head, id) {
            let i = choose|i: int| 0 <= i < head.len() && head[i].id == id;
            assert(head[i] == q[i]);
            lemma_pool_entry(s, kind, i);
        }
        if s.is_waiting(id) && s.requests[id].request.match_type == kind && stale(
            s.requests[id].request,
            now,
            s.config,
        ) {
            let at = lemma_waiting_in_pool(s, id);
            assert(at < k);
            assert(head[at] == q[at]);
        }
    }
    assert(left =~= right);
}

/// A sweep of the open pool and then of the pool of invites is a sweep of
/// both.
pub proof fn lemma_expire_both(s: ServiceView, now: Timestamp)
    ensures
        s.expire_in(MatchType::Open, now).expire_in(MatchType::Invite, now) == s.expire(now),
{
    let t = s.expire_in(MatchType::Open, now);
    let u = t.expire_in(MatchType::Invite, now);
    let e = s.expire(now);
    assert(u.requests =~= e.requests);
    assert(u =~= e);
}

/// A sweep takes nothing out of the registry or the store and changes no
/// record but those of requests that waited.
pub proof fn lemma_expire_advances(s: ServiceView, now: Timestamp)
    ensures
        s.advances_to(s.expire(now)),
{
}

} // verus!
