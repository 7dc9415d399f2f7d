//! A waiting pool: the requests of one match type that await a counterpart,
//! oldest first.

use vstd::prelude::*;
use crate::types::{MatchRequest, MatchRequestView, RequestId, Timestamp};

verus! {

/// The views of a sequence of requests.
pub open spec fn request_views(items: Seq<MatchRequest>) -> Seq<MatchRequestView> {
    items.map_values(|r: MatchRequest| r@)
}

/// Whether no request of the pool joined before one that stands ahead of it.
pub open spec fn sorted_by_join_time(q: Seq<MatchRequestView>) -> bool {
    forall|i: int, j: int|
        0 <= i <= j < q.len() ==> q[i].player.join_time <= q[j].player.join_time
}

/// Whether no two requests of the pool share an id.
pub open spec fn distinct_ids(q: Seq<MatchRequestView>) -> bool {
    forall|i: int, j: int| 0 <= i < j < q.len() ==> q[i].id != q[j].id
}

/// Whether the pool holds a request with the id `id`.
pub open spec fn holds_id(q: Seq<MatchRequestView>, id: RequestId) -> bool {
    exists|i: int| 0 <= i < q.len() && q[i].id == id
}

/// Whether the pool holds a request of the wallet `wallet`.
pub open spec fn holds_wallet(q: Seq<MatchRequestView>, wallet: Seq<char>) -> bool {
    exists|i: int| 0 <= i < q.len() && q[i].player.wallet_address == wallet
}

/// Where a request that joined at `joined` enters the pool: behind the last
/// request that joined no later. In a pool ordered by join time that is
/// behind every request that joined no later and ahead of every one that
/// joined after it.
pub open spec fn insertion_index(q: Seq<MatchRequestView>, joined: Timestamp) -> int
    decreases q.len(),
{
    if q.len() == 0 {
        0
    } else if q.last().player.join_time <= joined {
        q.len() as int
    } else {
        insertion_index(q.drop_last(), joined)
    }
}

/// The pool after `request` has entered it.
pub open spec fn enqueued(q: Seq<MatchRequestView>, request: MatchRequestView) -> Seq<
    MatchRequestView,
> {
    q.insert(insertion_index(q, request.player.join_time), request)
}

/// The test that keeps every request but those with the id `id`.
pub open spec fn other_than(id: RequestId) -> spec_fn(MatchRequestView) -> bool {
    |r: MatchRequestView| r.id != id
}

/// The pool without the requests that have the id `id`, the rest in order.
pub open spec fn without_id(q: Seq<MatchRequestView>, id: RequestId) -> Seq<MatchRequestView> {
    q.filter(other_than(id))
}

/// The index of the first request with the id `id`, or the pool's length.
pub open spec fn index_of_id(q: Seq<MatchRequestView>, id: RequestId) -> int
    decreases q.len(),
{
    if q.len() == 0 {
        0
    } else if q.first().id == id {
        0
    } else {
        1 + index_of_id(q.drop_first(), id)
    }
}

/// The place of the request `id` in the pool, counted from 1 at the head.
pub open spec fn position_of(q: Seq<MatchRequestView>, id: RequestId) -> Option<int> {
    if holds_id(q, id) {
        Some(index_of_id(q, id) + 1)
    } else {
        None
    }
}

/// The place where a request enters lies within the pool; every request from
/// there on joined later, and the request just ahead joined no later.
pub proof fn lemma_insertion_index_bounds(q: Seq<MatchRequestView>, joined: Timestamp)
    ensures
        0 <= insertion_index(q, joined) <= q.len(),
        forall|k: int|
            insertion_index(q, joined) <= k < q.len() ==> (#[trigger] q[k]).player.join_time
                > joined,
        insertion_index(q, joined) > 0 ==> q[insertion_index(q, joined) - 1].player.join_time
            <= joined,
    decreases q.len(),
{
    if q.len() > 0 && q.last().player.join_time > joined {
        let rest = q.drop_last();
        lemma_insertion_index_bounds(rest, joined);
        assert forall|k: int| insertion_index(q, joined) <= k < q.len() implies (
        #[trigger] q[k]).player.join_time > joined by {
            if k < q.len() - 1 {
                assert(q[k] == rest[k]);
            }
        }
        if insertion_index(q, joined) > 0 {
            assert(q[insertion_index(q, joined) - 1] == rest[insertion_index(q, joined) - 1]);
        }
    }
}

/// Entering a pool keeps it ordered by join time.
pub proof fn lemma_enqueued_sorted(q: Seq<MatchRequestView>, request: MatchRequestView)
    requires
        sorted_by_join_time(q),
    ensures
        sorted_by_join_time(enqueued(q, request)),
{
    let joined = request.player.join_time;
    let at = insertion_index(q, joined);
    lemma_insertion_index_bounds(q, joined);
    let after = enqueued(q, request);
    assert forall|i: int, j: int| 0 <= i <= j < after.len() implies after[i].player.join_time
        <= after[j].player.join_time by {
        let ti = if i < at {
            q[i]
        } else if i == at {
            request
        } else {
            q[i - 1]
        };
        let tj = if j < at {
            q[j]
        } else if j == at {
            request
        } else {
            q[j - 1]
        };
        assert(after[i] == ti);
        assert(after[j] == tj);
        if at > 0 {
            assert(q[at - 1].player.join_time <= joined);
            if i < at {
                assert(q[i].player.join_time <= q[at - 1].player.join_time);
            }
        }
    }
}

/// Entering a pool with an id it does not hold keeps its ids distinct.
pub proof fn lemma_enqueued_distinct(q: Seq<MatchRequestView>, request: MatchRequestView)
    requires
        distinct_ids(q),
        !holds_id(q, request.id),
    ensures
        distinct_ids(enqueued(q, request)),
{
    let at = insertion_index(q, request.player.join_time);
    lemma_insertion_index_bounds(q, request.player.join_time);
    let after = enqueued(q, request);
    assert forall|i: int, j: int| 0 <= i < j < after.len() implies after[i].id != after[j].id by {
        let ti = if i < at {
            q[i]
        } else if i == at {
            request
        } else {
            q[i - 1]
        };
        let tj = if j < at {
            q[j]
        } else if j == at {
            request
        } else {
            q[j - 1]
        };
        assert(after[i] == ti);
        assert(after[j] == tj);
    }
}

/// What a pool holds after a request has entered: the request, and each
/// request it held before.
pub proof fn lemma_enqueued_members(q: Seq<MatchRequestView>, request: MatchRequestView)
    ensures
        enqueued(q, request).len() == q.len() + 1,
        0 <= insertion_index(q, request.player.join_time) <= q.len(),
        enqueued(q, request)[insertion_index(q, request.player.join_time)] == request,
        forall|k: int|
            0 <= k < q.len() ==> #[trigger] q[k] == enqueued(q, request)[if k < insertion_index(
                q,
                request.player.join_time,
            ) {
                k
            } else {
                k + 1
            }],
        forall|k: int|
            0 <= k < enqueued(q, request).len() && k != insertion_index(
                q,
                request.player.join_time,
            ) ==> #[trigger] enqueued(q, request)[k] == q[if k < insertion_index(
                q,
                request.player.join_time,
            ) {
                k
            } else {
                k - 1
            }],
{
    lemma_insertion_index_bounds(q, request.player.join_time);
}

/// Dropping an id from a pool with one more request at its end.
pub proof fn lemma_without_id_push(q: Seq<MatchRequestView>, last: MatchRequestView, id: RequestId)
    ensures
        without_id(q.push(last), id) == if last.id == id {
            without_id(q, id)
        } else {
            without_id(q, id).push(last)
        },
{
    q.lemma_filter_push(last, other_than(id));
}

/// Dropping an id that a pool does not hold changes nothing.
pub proof fn lemma_without_id_absent(q: Seq<MatchRequestView>, id: RequestId)
    requires
        !holds_id(q, id),
    ensures
        without_id(q, id) == q,
    decreases q.len(),
{
    if q.len() == 0 {
        reveal(Seq::filter);
    } else {
        let rest = q.drop_last();
        assert(q == rest.push(q.last()));
        assert(q[q.len() - 1].id != id);
        assert forall|i: int| 0 <= i < rest.len() implies rest[i].id != id by {
            assert(q[i] == rest[i]);
        }
        lemma_without_id_absent(rest, id);
        lemma_without_id_push(rest, q.last(), id);
    }
}

/// Dropping the id of the one request at `at` removes that request.
pub proof fn lemma_without_id_at(q: Seq<MatchRequestView>, id: RequestId, at: int)
    requires
        0 <= at < q.len(),
        q[at].id == id,
        forall|k: int| 0 <= k < q.len() && k != at ==> (#[trigger] q[k]).id != id,
    ensures
        without_id(q, id) == q.remove(at),
    decreases q.len(),
{
    let rest = q.drop_last();
    assert(q == rest.push(q.last()));
    lemma_without_id_push(rest, q.last(), id);
    if at == q.len() - 1 {
        assert forall|i: int| 0 <= i < rest.len() implies rest[i].id != id by {
            assert(q[i] == rest[i]);
        }
        lemma_without_id_absent(rest, id);
        assert(q.remove(at) =~= rest);
    } else {
        assert(rest[at] == q[at]);
        assert forall|k: int| 0 <= k < rest.len() && k != at implies (#[trigger] rest[k]).id
            != id by {
            assert(q[k] == rest[k]);
        }
        lemma_without_id_at(rest, id, at);
        assert(q.remove(at) =~= rest.remove(at).push(q.last()));
    }
}

/// In a pool of distinct ids, dropping the id of the request at `at` removes
/// that request and no other.
pub proof fn lemma_without_id_distinct(q: Seq<MatchRequestView>, at: int)
    requires
        distinct_ids(q),
        0 <= at < q.len(),
    ensures
        without_id(q, q[at].id) == q.remove(at),
{
    assert forall|k: int| 0 <= k < q.len() && k != at implies (#[trigger] q[k]).id
        != q[at].id by {
        if k < at {
            assert(q[k].id != q[at].id);
        } else {
            assert(q[at].id != q[k].id);
        }
    }
    lemma_without_id_at(q, q[at].id, at);
}

/// Removing one request keeps a pool ordered and its ids distinct, and keeps
/// every other request.
pub proof fn lemma_remove_keeps(q: Seq<MatchRequestView>, at: int)
    requires
        0 <= at < q.len(),
    ensures
        q.remove(at).len() == q.len() - 1,
        sorted_by_join_time(q) ==> sorted_by_join_time(q.remove(at)),
        distinct_ids(q) ==> distinct_ids(q.remove(at)),
        forall|k: int|
            0 <= k < q.len() - 1 ==> #[trigger] q.remove(at)[k] == q[if k < at {
                k
            } else {
                k + 1
            }],
        forall|k: int|
            0 <= k < q.len() && k != at ==> #[trigger] q[k] == q.remove(at)[if k < at {
                k
            } else {
                k - 1
            }],
        distinct_ids(q) ==> !holds_id(q.remove(at), q[at].id),
        forall|id: RequestId| id != q[at].id && holds_id(q, id) ==> holds_id(q.remove(at), id),
        forall|id: RequestId| holds_id(q.remove(at), id) ==> holds_id(q, id),
{
    let r = q.remove(at);
    assert forall|k: int| 0 <= k < q.len() - 1 implies #[trigger] r[k] == q[if k < at {
        k
    } else {
        k + 1
    }] by {}
    if sorted_by_join_time(q) {
        assert forall|i: int, j: int| 0 <= i <= j < r.len() implies r[i].player.join_time
            <= r[j].player.join_time by {
            let si = if i < at { i } else { i + 1 };
            let sj = if j < at { j } else { j + 1 };
            assert(r[i] == q[si]);
            assert(r[j] == q[sj]);
        }
    }
    if distinct_ids(q) {
        assert forall|i: int, j: int| 0 <= i < j < r.len() implies r[i].id != r[j].id by {
            let si = if i < at { i } else { i + 1 };
            let sj = if j < at { j } else { j + 1 };
            assert(r[i] == q[si]);
            assert(r[j] == q[sj]);
        }
        if holds_id(r, q[at].id) {
            let k = choose|k: int| 0 <= k < r.len() && r[k].id == q[at].id;
            let sk = if k < at { k } else { k + 1 };
            assert(r[k] == q[sk]);
            if sk < at {
                assert(q[sk].id != q[at].id);
            } else {
                assert(q[at].id != q[sk].id);
            }
        }
    }
    assert forall|id: RequestId| id != q[at].id && holds_id(q, id) implies holds_id(r, id) by {
        let k = choose|k: int| 0 <= k < q.len() && q[k].id == id;
        let sk = if k < at { k } else { k - 1 };
        assert(r[sk] == q[k]);
    }
    assert forall|id: RequestId| holds_id(r, id) implies holds_id(q, id) by {
        let k = choose|k: int| 0 <= k < r.len() && r[k].id == id;
        let sk = if k < at { k } else { k + 1 };
        assert(r[k] == q[sk]);
    }
}

/// What dropping an id leaves of a pool of distinct ids: an ordered pool of
/// distinct ids without that id, in which every other request still stands.
pub proof fn lemma_without_id_keeps(q: Seq<MatchRequestView>, id: RequestId)
    requires
        distinct_ids(q),
    ensures
        sorted_by_join_time(q) ==> sorted_by_join_time(without_id(q, id)),
        distinct_ids(without_id(q, id)),
        !holds_id(without_id(q, id), id),
        without_id(q, id).len() <= q.len(),
        holds_id(q, id) ==> without_id(q, id).len() + 1 == q.len(),
        !holds_id(q, id) ==> without_id(q, id) == q,
        forall|k: int|
            0 <= k < without_id(q, id).len() ==> q.contains(#[trigger] without_id(q, id)[k])
                && without_id(q, id)[k].id != id,
        forall|k: int|
            0 <= k < q.len() && (#[trigger] q[k]).id != id ==> without_id(q, id).contains(q[k]),
{
    let r = without_id(q, id);
    lemma_index_of_id(q, id);
    if holds_id(q, id) {
        let at = index_of_id(q, id);
        lemma_without_id_distinct(q, at);
        lemma_remove_keeps(q, at);
        assert forall|k: int| 0 <= k < r.len() implies q.contains(#[trigger] r[k]) && r[k].id
            != id by {
            let sk = if k < at { k } else { k + 1 };
            assert(r[k] == q[sk]);
            if sk < at {
                assert(q[sk].id != q[at].id);
            } else {
                assert(q[at].id != q[sk].id);
            }
        }
        assert forall|k: int| 0 <= k < q.len() && (#[trigger] q[k]).id != id implies r.contains(
            q[k],
        ) by {
            let sk = if k < at { k } else { k - 1 };
            assert(r[sk] == q[k]);
        }
    } else {
        lemma_without_id_absent(q, id);
        assert forall|k: int| 0 <= k < r.len() implies q.contains(#[trigger] r[k]) && r[k].id
            != id by {
            assert(q[k] == r[k]);
        }
        assert forall|k: int| 0 <= k < q.len() && (#[trigger] q[k]).id != id implies r.contains(
            q[k],
        ) by {
            assert(r[k] == q[k]);
        }
    }
}

/// In a pool of distinct ids, dropping the ids of the requests at `i` and `j`
/// removes those two requests.
pub proof fn lemma_without_two(q: Seq<MatchRequestView>, i: int, j: int)
    requires
        distinct_ids(q),
        0 <= i < j < q.len(),
    ensures
        q[i].id != q[j].id,
        without_id(without_id(q, q[i].id), q[j].id) == q.remove(j).remove(i),
{
    lemma_without_id_distinct(q, i);
    lemma_remove_keeps(q, i);
    let q1 = q.remove(i);
    assert(q1[j - 1] == q[j]);
    lemma_without_id_distinct(q1, j - 1);
    assert(q.remove(j).remove(i) =~= q1.remove(j - 1));
}

/// Taking an id out of a pool a second time changes nothing: the pool
/// without the id does not hold it.
pub proof fn lemma_without_id_idempotent(q: Seq<MatchRequestView>, id: RequestId)
    ensures
        !holds_id(without_id(q, id), id),
        without_id(without_id(q, id), id) == without_id(q, id),
{
    let r = without_id(q, id);
    if holds_id(r, id) {
        let k = choose|k: int| 0 <= k < r.len() && r[k].id == id;
        q.lemma_filter_pred(other_than(id), k);
    }
    lemma_without_id_absent(r, id);
}

/// The index of an id in a pool that holds it.
pub proof fn lemma_index_of_id(q: Seq<MatchRequestView>, id: RequestId)
    ensures
        0 <= index_of_id(q, id) <= q.len(),
        holds_id(q, id) <==> index_of_id(q, id) < q.len(),
        index_of_id(q, id) < q.len() ==> q[index_of_id(q, id)].id == id,
        forall|k: int| 0 <= k < index_of_id(q, id) ==> (#[trigger] q[k]).id != id,
    decreases q.len(),
{
    if q.len() == 0 {
    } else if q.first().id == id {
        assert(q[0].id == id);
    } else {
        let rest = q.drop_first();
        lemma_index_of_id(rest, id);
        let at = index_of_id(rest, id);
        if at < rest.len() {
            assert(q[at + 1] == rest[at]);
        }
        assert forall|k: int| 0 <= k < index_of_id(q, id) implies (#[trigger] q[k]).id != id by {
            if k > 0 {
                assert(q[k] == rest[k - 1]);
            }
        }
        if holds_id(q, id) {
            let k = choose|k: int| 0 <= k < q.len() && q[k].id == id;
            assert(k > 0);
            assert(rest[k - 1] == q[k]);
        }
    }
}

/// A waiting pool of one match type.
pub struct QueuePartition {
    items: Vec<MatchRequest>,
}

impl View for QueuePartition {
    type V = Seq<MatchRequestView>;

    closed spec fn view(&self) -> Seq<MatchRequestView> {
        request_views(self.items@)
    }
}

impl QueuePartition {
    /// A pool is well formed when it is ordered by join time.
    pub open spec fn wf(&self) -> bool {
        sorted_by_join_time(self@)
    }

    /// An empty pool.
    pub fn new() -> (pool: Self)
        ensures
            pool@ == Seq::<MatchRequestView>::empty(),
            pool.wf(),
    {
        let pool = QueuePartition { items: Vec::new() };
        assert(pool@ =~= Seq::<MatchRequestView>::empty());
        pool
    }

    /// The number of requests that wait.
    pub fn len(&self) -> (n: usize)
        ensures
            n == self@.len(),
    {
        self.items.len()
    }

    /// The request at `index`, counted from 0 at the head.
    pub fn entry(&self, index: usize) -> (request: &MatchRequest)
        requires
            index < self@.len(),
        ensures
            request@ == self@[index as int],
    {
        &self.items[index]
    }

    /// Puts `request` into the pool at the place its join time gives it, and
    /// returns that place, counted from 0.
    pub fn enqueue(&mut self, request: MatchRequest) -> (index: usize)
        requires
            old(self).wf(),
        ensures
            final(self).wf(),
            final(self)@ == enqueued(old(self)@, request@),
            index == insertion_index(old(self)@, request.player.join_time),
    {
        let joined: Timestamp = request.player.join_time;
        let ghost before = self@;
        let mut index: usize = self.items.len();
        assert(before.subrange(0, index as int) =~= before);
        while index > 0 && self.items[index - 1].player.join_time > joined
            invariant
                index <= self.items.len(),
                self@ == before,
                insertion_index(before, joined) == insertion_index(
                    before.subrange(0, index as int),
                    joined,
                ),
            decreases index,
        {
            proof {
                let head = before.subrange(0, index as int);
                assert(head.last() == before[index - 1]);
                assert(head.drop_last() =~= before.subrange(0, index - 1));
            }
            index = index - 1;
        }
        proof {
            let head = before.subrange(0, index as int);
            if index > 0 {
                assert(head.last() == before[index - 1]);
            }
            assert(insertion_index(before, joined) == index);
            lemma_enqueued_sorted(before, request@);
        }
        self.items.insert(index, request);
        assert(self@ =~= enqueued(before, request@));
        index
    }

    /// Takes every request with the id `id` out of the pool; tells whether
    /// there was one. Taking out an id that is not there changes nothing.
    pub fn remove(&mut self, id: RequestId) -> (removed: bool)
        requires
            old(self).wf(),
        ensures
            final(self).wf(),
            final(self)@ == without_id(old(self)@, id),
            removed == holds_id(old(self)@, id),
    {
        let ghost before = self@;
        let ghost mut done: int = 0;
        let mut removed = false;
        let mut index: usize = 0;
        proof {
            reveal(Seq::filter);
            assert(before.subrange(0, 0) =~= Seq::<MatchRequestView>::empty());
            assert(before.subrange(0, before.len() as int) =~= before);
        }
        while index < self.items.len()
            invariant
                0 <= done <= before.len(),
                index <= self.items.len(),
                index == without_id(before.subrange(0, done), id).len(),
                self@ == without_id(before.subrange(0, done), id) + before.subrange(
                    done,
                    before.len() as int,
                ),
                removed == holds_id(before.subrange(0, done), id),
                sorted_by_join_time(self@),
            decreases self.items.len() - index,
        {
            let ghost current = self@;
            let ghost head = before.subrange(0, done);
            let ghost kept = without_id(head, id);
            proof {
                assert(current[index as int] == before[done]);
                assert(before.subrange(0, done + 1) =~= head.push(before[done]));
                lemma_without_id_push(head, before[done], id);
            }
            if self.items[index].id == id {
                let _ = self.items.remove(index);
                removed = true;
                proof {
                    assert(self@ =~= current.remove(index as int));
                    lemma_remove_keeps(current, index as int);
                    assert(self@ =~= kept + before.subrange(done + 1, before.len() as int));
                    let next = before.subrange(0, done + 1);
                    assert(next[done].id == id);
                }
            } else {
                index = index + 1;
                proof {
                    assert(self@ =~= kept.push(before[done]) + before.subrange(
                        done + 1,
                        before.len() as int,
                    ));
                    let next = before.subrange(0, done + 1);
                    if holds_id(next, id) {
                        let k = choose|k: int| 0 <= k < next.len() && next[k].id == id;
                        assert(head[k].id == id);
                    }
                    if holds_id(head, id) {
                        let k = choose|k: int| 0 <= k < head.len() && head[k].id == id;
                        assert(next[k].id == id);
                    }
                }
            }
            proof {
                done = done + 1;
            }
        }
        proof {
            assert(done == before.len());
            assert(before.subrange(0, done) =~= before);
            assert(self@ =~= without_id(before, id));
        }
        removed
    }

    /// Takes the request at `index` out of the pool and returns it.
    pub fn take(&mut self, index: usize) -> (request: MatchRequest)
        requires
            old(self).wf(),
            index < old(self)@.len(),
        ensures
            final(self).wf(),
            request@ == old(self)@[index as int],
            final(self)@ == old(self)@.remove(index as int),
    {
        let ghost before = self@;
        let request = self.items.remove(index);
        proof {
            assert(self@ =~= before.remove(index as int));
            lemma_remove_keeps(before, index as int);
        }
        request
    }

    /// The place of the request `id`, counted from 1 at the head; `None` if
    /// the pool does not hold it.
    pub fn position(&self, id: RequestId) -> (place: Option<usize>)
        ensures
            match place {
                Some(p) => position_of(self@, id) == Some(p as int),
                None => position_of(self@, id).is_none(),
            },
    {
        let mut index: usize = 0;
        proof {
            lemma_index_of_id(self@, id);
        }
        while index < self.items.len()
            invariant
                index <= self.items.len(),
                index <= index_of_id(self@, id),
            decreases self.items.len() - index,
        {
            proof {
                lemma_index_of_id(self@, id);
            }
            if self.items[index].id == id {
                assert(self@[index as int].id == id);
                assert(holds_id(self@, id));
                return Some(index + 1);
            }
            index = index + 1;
        }
        proof {
            lemma_index_of_id(self@, id);
        }
        None
    }

    /// Whether a request of the wallet `wallet` waits in the pool.
    pub fn has_wallet(&self, wallet: &String) -> (found: bool)
        ensures
            found == holds_wallet(self@, wallet@),
    {
        let mut index: usize = 0;
        while index < self.items.len()
            invariant
                index <= self.items.len(),
                forall|k: int|
                    0 <= k < index ==> (#[trigger] self@[k]).player.wallet_address != wallet@,
            decreases self.items.len() - index,
        {
            if self.items[index].player.wallet_address == *wallet {
                assert(self@[index as int].player.wallet_address == wallet@);
                return true;
            }
            index = index + 1;
        }
        false
    }

    /// The requests that wait, oldest first.
    pub fn snapshot(&self) -> (requests: Vec<MatchRequest>)
        ensures
            request_views(requests@) == self@,
    {
        let mut requests: Vec<MatchRequest> = Vec::new();
        let mut index: usize = 0;
        while index < self.items.len()
            invariant
                index <= self.items.len(),
                requests@ == self.items@.subrange(0, index as int),
            decreases self.items.len() - index,
        {
            requests.push(self.items[index].clone());
            index = index + 1;
            assert(requests@ =~= self.items@.subrange(0, index as int));
        }
        assert(requests@ =~= self.items@);
        requests
    }
}

} // verus!
