//! The pairing rule of the open pool: the oldest request that has a
//! compatible counterpart is paired with the oldest such counterpart.

use vstd::prelude::*;
use crate::bound::{compatible, is_compatible};
use crate::config::MatchmakingConfig;
use crate::partition::QueuePartition;
use crate::types::{MatchRequestView, Timestamp};

verus! {

/// Whether no two requests of the pool are compatible at `now`.
pub open spec fn no_pair(
    q: Seq<MatchRequestView>,
    now: Timestamp,
    config: MatchmakingConfig,
) -> bool {
    forall|a: int, b: int| 0 <= a < b < q.len() ==> !compatible(q[a], q[b], now, config)
}

/// Whether no request ahead of `i` has a compatible counterpart behind it.
pub open spec fn unpaired_before(
    q: Seq<MatchRequestView>,
    i: int,
    now: Timestamp,
    config: MatchmakingConfig,
) -> bool {
    forall|a: int, b: int| 0 <= a < i && a < b < q.len() ==> !compatible(q[a], q[b], now, config)
}

/// Whether the request at `i` has no compatible counterpart between itself
/// and `j`.
pub open spec fn no_partner_between(
    q: Seq<MatchRequestView>,
    i: int,
    j: int,
    now: Timestamp,
    config: MatchmakingConfig,
) -> bool {
    forall|b: int| i < b < j && b < q.len() ==> !compatible(q[i], #[trigger] q[b], now, config)
}

/// Whether `(i, j)` is the pair the engine makes next: `i` is the oldest
/// request with a compatible counterpart behind it, and `j` the oldest such
/// counterpart.
pub open spec fn is_first_pair(
    q: Seq<MatchRequestView>,
    i: int,
    j: int,
    now: Timestamp,
    config: MatchmakingConfig,
) -> bool {
    &&& 0 <= i < j < q.len()
    &&& compatible(q[i], q[j], now, config)
    &&& unpaired_before(q, i, now, config)
    &&& no_partner_between(q, i, j, now, config)
}

/// The pair the engine makes next, if the pool holds a compatible pair.
pub open spec fn first_pair(
    q: Seq<MatchRequestView>,
    now: Timestamp,
    config: MatchmakingConfig,
) -> Option<(int, int)> {
    if exists|i: int, j: int| is_first_pair(q, i, j, now, config) {
        Some(choose|i: int, j: int| is_first_pair(q, i, j, now, config))
    } else {
        None
    }
}

/// The pairs the engine makes from a pool at `now`, in the order it makes
/// them: the next pair, then the pairs of what is left.
pub open spec fn greedy_pairs(
    q: Seq<MatchRequestView>,
    now: Timestamp,
    config: MatchmakingConfig,
) -> Seq<(MatchRequestView, MatchRequestView)>
    decreases q.len(),
{
    match first_pair(q, now, config) {
        Some((i, j)) => if 0 <= i < j < q.len() {
            seq![(q[i], q[j])] + greedy_pairs(q.remove(j).remove(i), now, config)
        } else {
            Seq::empty()
        },
        None => Seq::empty(),
    }
}

/// The requests that still wait once the engine has made every pair it can
/// at `now`.
pub open spec fn greedy_rest(
    q: Seq<MatchRequestView>,
    now: Timestamp,
    config: MatchmakingConfig,
) -> Seq<MatchRequestView>
    decreases q.len(),
{
    match first_pair(q, now, config) {
        Some((i, j)) => if 0 <= i < j < q.len() {
            greedy_rest(q.remove(j).remove(i), now, config)
        } else {
            q
        },
        None => q,
    }
}

/// Compatibility does not depend on the order of the two requests.
pub proof fn lemma_compatible_symmetric(
    a: MatchRequestView,
    b: MatchRequestView,
    now: Timestamp,
    config: MatchmakingConfig,
)
    ensures
        compatible(a, b, now, config) == compatible(b, a, now, config),
{
}

/// A pool has at most one next pair.
pub proof fn lemma_first_pair_unique(
    q: Seq<MatchRequestView>,
    i: int,
    j: int,
    k: int,
    l: int,
    now: Timestamp,
    config: MatchmakingConfig,
)
    requires
        is_first_pair(q, i, j, now, config),
        is_first_pair(q, k, l, now, config),
    ensures
        i == k,
        j == l,
{
    if i < k {
        assert(!compatible(q[i], q[j], now, config));
    }
    if k < i {
        assert(!compatible(q[k], q[l], now, config));
    }
    if j < l {
        assert(!compatible(q[k], q[j], now, config));
    }
    if l < j {
        assert(!compatible(q[i], q[l], now, config));
    }
}

/// The pair that meets the rule is the pair the engine makes next.
pub proof fn lemma_first_pair_found(
    q: Seq<MatchRequestView>,
    i: int,
    j: int,
    now: Timestamp,
    config: MatchmakingConfig,
)
    requires
        is_first_pair(q, i, j, now, config),
    ensures
        first_pair(q, now, config) == Some((i, j)),
{
    let (k, l) = choose|k: int, l: int| is_first_pair(q, k, l, now, config);
    lemma_first_pair_unique(q, i, j, k, l, now, config);
}

/// A request with a compatible counterpart behind it has an oldest one.
proof fn lemma_oldest_partner(
    q: Seq<MatchRequestView>,
    i: int,
    b: int,
    now: Timestamp,
    config: MatchmakingConfig,
) -> (j: int)
    requires
        0 <= i < b < q.len(),
        compatible(q[i], q[b], now, config),
    ensures
        i < j <= b,
        compatible(q[i], q[j], now, config),
        no_partner_between(q, i, j, now, config),
    decreases b - i,
{
    if no_partner_between(q, i, b, now, config) {
        b
    } else {
        let c = choose|c: int|
            i < c < b && c < q.len() && compatible(q[i], #[trigger] q[c], now, config);
        lemma_oldest_partner(q, i, c, now, config)
    }
}

/// A pool that holds a compatible pair has a next pair.
pub proof fn lemma_first_pair_exists(
    q: Seq<MatchRequestView>,
    a: int,
    b: int,
    now: Timestamp,
    config: MatchmakingConfig,
) -> (pair: (int, int))
    requires
        0 <= a < b < q.len(),
        compatible(q[a], q[b], now, config),
    ensures
        is_first_pair(q, pair.0, pair.1, now, config),
    decreases a,
{
    if unpaired_before(q, a, now, config) {
        let j = lemma_oldest_partner(q, a, b, now, config);
        (a, j)
    } else {
        let (c, d) = choose|c: int, d: int|
            0 <= c < a && c < d < q.len() && compatible(q[c], q[d], now, config);
        lemma_first_pair_exists(q, c, d, now, config)
    }
}

/// The engine makes no pair exactly when no two requests are compatible.
pub proof fn lemma_first_pair_none(
    q: Seq<MatchRequestView>,
    now: Timestamp,
    config: MatchmakingConfig,
)
    ensures
        first_pair(q, now, config).is_none() <==> no_pair(q, now, config),
{
    if !no_pair(q, now, config) {
        let (a, b) = choose|a: int, b: int|
            0 <= a < b < q.len() && compatible(q[a], q[b], now, config);
        let pair = lemma_first_pair_exists(q, a, b, now, config);
    }
    if first_pair(q, now, config).is_some() {
        let (i, j) = choose|i: int, j: int| is_first_pair(q, i, j, now, config);
        assert(compatible(q[i], q[j], now, config));
    }
}

/// Once the engine has made every pair it can, no two requests that still
/// wait are compatible; it made as many pairs as requests left the pool, two
/// by two.
pub proof fn lemma_greedy_rest(q: Seq<MatchRequestView>, now: Timestamp, config: MatchmakingConfig)
    ensures
        no_pair(greedy_rest(q, now, config), now, config),
        greedy_rest(q, now, config).len() + 2 * greedy_pairs(q, now, config).len() == q.len(),
    decreases q.len(),
{
    lemma_first_pair_none(q, now, config);
    match first_pair(q, now, config) {
        Some((i, j)) => {
            let (k, l) = choose|k: int, l: int| is_first_pair(q, k, l, now, config);
            assert(0 <= i < j < q.len());
            lemma_greedy_rest(q.remove(j).remove(i), now, config);
        },
        None => {},
    }
}

/// The pairs the engine makes from a pool are its next pair and then the
/// pairs it makes from the pool without those two requests.
pub proof fn lemma_greedy_step(
    q: Seq<MatchRequestView>,
    i: int,
    j: int,
    now: Timestamp,
    config: MatchmakingConfig,
)
    requires
        is_first_pair(q, i, j, now, config),
    ensures
        greedy_pairs(q, now, config) == seq![(q[i], q[j])] + greedy_pairs(
            q.remove(j).remove(i),
            now,
            config,
        ),
        greedy_rest(q, now, config) == greedy_rest(q.remove(j).remove(i), now, config),
        q.remove(j).remove(i).len() + 2 == q.len(),
{
    lemma_first_pair_found(q, i, j, now, config);
}

/// Where the engine has a next pair to make, that pair meets the rule, and
/// the pool yields at least that pair.
pub proof fn lemma_first_pair_some(
    q: Seq<MatchRequestView>,
    now: Timestamp,
    config: MatchmakingConfig,
) -> (pair: (int, int))
    requires
        first_pair(q, now, config).is_some(),
    ensures
        first_pair(q, now, config) == Some(pair),
        is_first_pair(q, pair.0, pair.1, now, config),
        greedy_pairs(q, now, config).len() >= 1,
        greedy_pairs(q, now, config)[0] == (q[pair.0], q[pair.1]),
{
    let (i, j) = choose|i: int, j: int| is_first_pair(q, i, j, now, config);
    lemma_greedy_step(q, i, j, now, config);
    (i, j)
}

/// A pool with no compatible pair yields no pair and stays as it is.
pub proof fn lemma_greedy_done(q: Seq<MatchRequestView>, now: Timestamp, config: MatchmakingConfig)
    requires
        no_pair(q, now, config),
    ensures
        greedy_pairs(q, now, config) == Seq::<(MatchRequestView, MatchRequestView)>::empty(),
        greedy_rest(q, now, config) == q,
{
    lemma_first_pair_none(q, now, config);
}

/// Every pair the engine makes is compatible at the time it is made.
pub proof fn lemma_greedy_pairs_compatible(
    q: Seq<MatchRequestView>,
    now: Timestamp,
    config: MatchmakingConfig,
)
    ensures
        forall|k: int|
            0 <= k < greedy_pairs(q, now, config).len() ==> compatible(
                (#[trigger] greedy_pairs(q, now, config)[k]).0,
                greedy_pairs(q, now, config)[k].1,
                now,
                config,
            ),
    decreases q.len(),
{
    match first_pair(q, now, config) {
        Some((i, j)) => {
            let (k, l) = choose|k: int, l: int| is_first_pair(q, k, l, now, config);
            assert(0 <= i < j < q.len());
            let rest = q.remove(j).remove(i);
            lemma_greedy_pairs_compatible(rest, now, config);
            let all = greedy_pairs(q, now, config);
            let tail = greedy_pairs(rest, now, config);
            assert forall|k: int| 0 <= k < all.len() implies compatible(
                (#[trigger] all[k]).0,
                all[k].1,
                now,
                config,
            ) by {
                if k > 0 {
                    assert(all[k] == tail[k - 1]);
                }
            }
        },
        None => {},
    }
}

/// Looks for the pair the engine makes next in `pool` at `now`: the indices
/// of the two requests, the older first, or `None` if no two are compatible.
pub fn find_first_pair(pool: &QueuePartition, now: Timestamp, config: &MatchmakingConfig) -> (found:
    Option<(usize, usize)>)
    ensures
        match found {
            Some((i, j)) => {
                &&& is_first_pair(pool@, i as int, j as int, now, *config)
                &&& first_pair(pool@, now, *config) == Some((i as int, j as int))
            },
            None => {
                &&& no_pair(pool@, now, *config)
                &&& first_pair(pool@, now, *config).is_none()
            },
        },
{
    let n: usize = pool.len();
    let mut i: usize = 0;
    while i < n
        invariant
            i <= n,
            n == pool@.len(),
            unpaired_before(pool@, i as int, now, *config),
        decreases n - i,
    {
        let mut j: usize = i + 1;
        while j < n
            invariant
                i < j <= n,
                n == pool@.len(),
                unpaired_before(pool@, i as int, now, *config),
                no_partner_between(pool@, i as int, j as int, now, *config),
            decreases n - j,
        {
            if is_compatible(pool.entry(i), pool.entry(j), now, config) {
                proof {
                    lemma_first_pair_found(pool@, i as int, j as int, now, *config);
                }
                return Some((i, j));
            }
            j = j + 1;
        }
        i = i + 1;
    }
    proof {
        lemma_first_pair_none(pool@, now, *config);
    }
    None
}

} // verus!
