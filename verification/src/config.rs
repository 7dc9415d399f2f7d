//! The engine's tunable parameters.

use vstd::prelude::*;

verus! {

/// The parameters of pairing and expiry.
#[derive(Clone, Copy, Debug, PartialEq, Eq, Structural)]
pub struct MatchmakingConfig {
    /// The rating gap accepted by a request that names none.
    pub default_max_elo_diff: u32,
    /// Rating points by which a tolerance grows for each full second waited.
    pub widen_per_second: u32,
    /// The largest rating gap any automatic pairing may have.
    pub max_elo_diff_cap: u32,
    /// How long a request may wait, in milliseconds, before a sweep expires it.
    pub expiry_ms: u64,
}

pub const DEFAULT_MAX_ELO_DIFF: u32 = 100;

pub const DEFAULT_WIDEN_PER_SECOND: u32 = 5;

pub const DEFAULT_MAX_ELO_DIFF_CAP: u32 = 400;

pub const DEFAULT_EXPIRY_MS: u64 = 300_000;

impl Default for MatchmakingConfig {
    fn default() -> (config: Self)
        ensures
            config == (MatchmakingConfig {
                default_max_elo_diff: DEFAULT_MAX_ELO_DIFF,
                widen_per_second: DEFAULT_WIDEN_PER_SECOND,
                max_elo_diff_cap: DEFAULT_MAX_ELO_DIFF_CAP,
                expiry_ms: DEFAULT_EXPIRY_MS,
            }),
    {
        MatchmakingConfig {
            default_max_elo_diff: DEFAULT_MAX_ELO_DIFF,
            widen_per_second: DEFAULT_WIDEN_PER_SECOND,
            max_elo_diff_cap: DEFAULT_MAX_ELO_DIFF_CAP,
            expiry_ms: DEFAULT_EXPIRY_MS,
        }
    }
}

} // verus!
