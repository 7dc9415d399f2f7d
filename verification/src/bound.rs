//! What waiting does to a request: its rating tolerance widens, and in the end
//! the request is stale.

use vstd::prelude::*;
use crate::config::MatchmakingConfig;
use crate::types::{MatchRequest, MatchRequestView, Timestamp};

verus! {

/// The smaller of two numbers.
pub open spec fn least(a: int, b: int) -> int {
    if a <= b {
        a
    } else {
        b
    }
}

/// Milliseconds a request that joined at `joined` has waited at `now`; zero
/// where the clock reads earlier than the join.
pub open spec fn waited_ms(joined: Timestamp, now: Timestamp) -> int {
    if now > joined {
        (now - joined) as int
    } else {
        0
    }
}

/// Whether `request` has waited out the configured time at `now`.
pub open spec fn stale(
    request: MatchRequestView,
    now: Timestamp,
    config: MatchmakingConfig,
) -> bool {
    waited_ms(request.player.join_time, now) >= config.expiry_ms
}

/// The tolerance a request starts with.
pub open spec fn base_bound(max_elo_diff: Option<u32>, config: MatchmakingConfig) -> int {
    match max_elo_diff {
        Some(d) => d as int,
        None => config.default_max_elo_diff as int,
    }
}

/// A tolerance of `base` after `waited` milliseconds: it grows by the
/// configured step for each full second, and never passes the cap.
pub open spec fn widened_bound(base: int, waited: int, config: MatchmakingConfig) -> int {
    least(base + config.widen_per_second * (waited / 1000), config.max_elo_diff_cap as int)
}

/// The tolerance of `request` at `now`.
pub open spec fn request_bound(
    request: MatchRequestView,
    now: Timestamp,
    config: MatchmakingConfig,
) -> int {
    widened_bound(
        base_bound(request.max_elo_diff, config),
        waited_ms(request.player.join_time, now),
        config,
    )
}

/// The rating gap two requests both accept at `now`.
pub open spec fn effective_bound(
    a: MatchRequestView,
    b: MatchRequestView,
    now: Timestamp,
    config: MatchmakingConfig,
) -> int {
    least(request_bound(a, now, config), request_bound(b, now, config))
}

/// The distance between two ratings.
pub open spec fn elo_gap(a: u32, b: u32) -> int {
    if a >= b {
        (a - b) as int
    } else {
        (b - a) as int
    }
}

/// Whether two requests may be paired from the open pool at `now`.
pub open spec fn compatible(
    a: MatchRequestView,
    b: MatchRequestView,
    now: Timestamp,
    config: MatchmakingConfig,
) -> bool {
    elo_gap(a.player.elo, b.player.elo) <= effective_bound(a, b, now, config)
}

/// The shortest wait, in milliseconds, after which a tolerance of `base` has
/// reached `target`.
pub open spec fn widening_threshold_ms(base: int, target: int, config: MatchmakingConfig) -> int {
    if target <= base {
        0
    } else {
        1000 * ((target - base + config.widen_per_second - 1) / (config.widen_per_second as int))
    }
}

/// A tolerance never shrinks while its request waits.
pub proof fn lemma_widened_bound_monotonic(
    base: int,
    earlier: int,
    later: int,
    config: MatchmakingConfig,
)
    requires
        earlier <= later,
    ensures
        widened_bound(base, earlier, config) <= widened_bound(base, later, config),
{
    let rate = config.widen_per_second as int;
    let s1 = (earlier / 1000) as int;
    let s2 = (later / 1000) as int;
    assert(s1 <= s2);
    assert(rate * s1 <= rate * s2) by (nonlinear_arith)
        requires
            0 <= rate,
            s1 <= s2,
    ;
}

/// A tolerance never passes the cap.
pub proof fn lemma_widened_bound_capped(base: int, waited: int, config: MatchmakingConfig)
    ensures
        widened_bound(base, waited, config) <= config.max_elo_diff_cap,
{
}

/// The gap two requests both accept never shrinks as time passes, so a pair
/// that is compatible stays compatible.
pub proof fn lemma_effective_bound_monotonic(
    a: MatchRequestView,
    b: MatchRequestView,
    earlier: Timestamp,
    later: Timestamp,
    config: MatchmakingConfig,
)
    requires
        earlier <= later,
    ensures
        request_bound(a, earlier, config) <= request_bound(a, later, config),
        request_bound(b, earlier, config) <= request_bound(b, later, config),
        effective_bound(a, b, earlier, config) <= effective_bound(a, b, later, config),
        compatible(a, b, earlier, config) ==> compatible(a, b, later, config),
{
    lemma_widened_bound_monotonic(
        base_bound(a.max_elo_diff, config),
        waited_ms(a.player.join_time, earlier),
        waited_ms(a.player.join_time, later),
        config,
    );
    lemma_widened_bound_monotonic(
        base_bound(b.max_elo_diff, config),
        waited_ms(b.player.join_time, earlier),
        waited_ms(b.player.join_time, later),
        config,
    );
}

/// The gap two requests accept depends on their ratings, their tolerances
/// and their waits alone, and never shrinks as the waits grow: take two pairs
/// of requests with the same ratings and the same tolerances asked for; if
/// neither request of the second pair has waited less than its like in the
/// first, the second pair accepts no smaller gap, and is compatible if the
/// first is.
pub proof fn lemma_compatible_after_longer_waits(
    a1: MatchRequestView,
    b1: MatchRequestView,
    now1: Timestamp,
    a2: MatchRequestView,
    b2: MatchRequestView,
    now2: Timestamp,
    config: MatchmakingConfig,
)
    requires
        a1.player.elo == a2.player.elo,
        b1.player.elo == b2.player.elo,
        a1.max_elo_diff == a2.max_elo_diff,
        b1.max_elo_diff == b2.max_elo_diff,
        waited_ms(a1.player.join_time, now1) <= waited_ms(a2.player.join_time, now2),
        waited_ms(b1.player.join_time, now1) <= waited_ms(b2.player.join_time, now2),
    ensures
        request_bound(a1, now1, config) <= request_bound(a2, now2, config),
        request_bound(b1, now1, config) <= request_bound(b2, now2, config),
        effective_bound(a1, b1, now1, config) <= effective_bound(a2, b2, now2, config),
        compatible(a1, b1, now1, config) ==> compatible(a2, b2, now2, config),
{
    lemma_widened_bound_monotonic(
        base_bound(a1.max_elo_diff, config),
        waited_ms(a1.player.join_time, now1),
        waited_ms(a2.player.join_time, now2),
        config,
    );
    lemma_widened_bound_monotonic(
        base_bound(b1.max_elo_diff, config),
        waited_ms(b1.player.join_time, now1),
        waited_ms(b2.player.join_time, now2),
        config,
    );
}

/// With a widening rate above zero, a tolerance of `base` has reached any
/// `target` up to the cap once the wait has reached the threshold for it.
pub proof fn lemma_widening_reaches_target(
    base: int,
    target: int,
    waited: int,
    config: MatchmakingConfig,
)
    requires
        config.widen_per_second > 0,
        target <= config.max_elo_diff_cap,
        waited >= widening_threshold_ms(base, target, config),
    ensures
        widened_bound(base, waited, config) >= target,
{
    if target > base {
        let rate = config.widen_per_second as int;
        let need = target - base;
        let steps = (need + rate - 1) / rate;
        let secs = (waited / 1000) as int;
        assert(secs >= steps);
        assert(rate * steps >= need) by (nonlinear_arith)
            requires
                rate > 0,
                need > 0,
                steps == (need + rate - 1) / rate,
        ;
        assert(rate * secs >= rate * steps) by (nonlinear_arith)
            requires
                rate > 0,
                secs >= steps,
        ;
    }
}

/// Two requests whose tolerances have both reached `distance` are compatible
/// whenever their ratings lie no further apart than `distance`.
pub proof fn lemma_pair_within_reached_distance(
    a: MatchRequestView,
    b: MatchRequestView,
    distance: int,
    now: Timestamp,
    config: MatchmakingConfig,
)
    requires
        config.widen_per_second > 0,
        distance <= config.max_elo_diff_cap,
        elo_gap(a.player.elo, b.player.elo) <= distance,
        waited_ms(a.player.join_time, now) >= widening_threshold_ms(
            base_bound(a.max_elo_diff, config),
            distance,
            config,
        ),
        waited_ms(b.player.join_time, now) >= widening_threshold_ms(
            base_bound(b.max_elo_diff, config),
            distance,
            config,
        ),
    ensures
        compatible(a, b, now, config),
{
    lemma_widening_reaches_target(
        base_bound(a.max_elo_diff, config),
        distance,
        waited_ms(a.player.join_time, now),
        config,
    );
    lemma_widening_reaches_target(
        base_bound(b.max_elo_diff, config),
        distance,
        waited_ms(b.player.join_time, now),
        config,
    );
}

/// Computes the milliseconds a request that joined at `joined` has waited at
/// `now`.
pub fn waited_since(joined: Timestamp, now: Timestamp) -> (waited: u64)
    ensures
        waited == waited_ms(joined, now),
{
    if now > joined {
        (now as i128 - joined as i128) as u64
    } else {
        0
    }
}

/// Decides whether `request` has waited out the configured time at `now`.
pub fn is_stale(request: &MatchRequest, now: Timestamp, config: &MatchmakingConfig) -> (gone: bool)
    ensures
        gone == stale(request@, now, *config),
{
    waited_since(request.player.join_time, now) >= config.expiry_ms
}

/// Computes the tolerance of `request` at `now`.
pub fn current_bound(request: &MatchRequest, now: Timestamp, config: &MatchmakingConfig) -> (bound:
    u32)
    ensures
        bound == request_bound(request@, now, *config),
{
    let base: u32 = match request.max_elo_diff {
        Some(d) => d,
        None => config.default_max_elo_diff,
    };
    let waited: u64 = waited_since(request.player.join_time, now);
    let seconds: u64 = waited / 1000;
    let rate: u128 = config.widen_per_second as u128;
    assert(rate * (seconds as u128) <= 0xffff_ffff * 0xffff_ffff_ffff_ffff) by (nonlinear_arith)
        requires
            0 <= rate <= 0xffff_ffff,
            0 <= seconds <= 0xffff_ffff_ffff_ffff,
    ;
    let grown: u128 = base as u128 + rate * (seconds as u128);
    if grown <= config.max_elo_diff_cap as u128 {
        grown as u32
    } else {
        config.max_elo_diff_cap
    }
}

/// Computes the distance between two ratings.
pub fn rating_gap(a: u32, b: u32) -> (gap: u32)
    ensures
        gap == elo_gap(a, b),
{
    if a >= b {
        a - b
    } else {
        b - a
    }
}

/// Decides whether two requests may be paired from the open pool at `now`.
pub fn is_compatible(
    a: &MatchRequest,
    b: &MatchRequest,
    now: Timestamp,
    config: &MatchmakingConfig,
) -> (ok: bool)
    ensures
        ok == compatible(a@, b@, now, *config),
{
    let gap: u32 = rating_gap(a.player.elo, b.player.elo);
    let bound_a: u32 = current_bound(a, now, config);
    let bound_b: u32 = current_bound(b, now, config);
    gap <= bound_a && gap <= bound_b
}

} // verus!
