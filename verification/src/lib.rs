//! A matchmaking engine for a chess platform.
//!
//! Players join a waiting pool with a rating and a tolerance for the rating
//! gap they accept. The engine pairs compatible players oldest-first, widens
//! each tolerance the longer its owner waits, and resolves direct invites
//! between two named players. Every operation keeps the registry of requests,
//! the waiting pools and the store of matches consistent with each other.
//!
//! The engine is [`service::MatchmakingService`]. Its operations take
//! `&mut self`: each one is a single step from one consistent state to the
//! next, and callers on several threads share the engine behind one lock.
//! What a state is and what each step makes of it is written down in
//! [`model`]; that every step keeps the state consistent is proved in
//! [`preservation`]; what follows for callers is stated in [`laws`].
//!
//! Choices the engine makes:
//!
//! - A wallet waits with one request at a time. A second request of a wallet
//!   that already waits is rejected, so no pool ever pairs a wallet with
//!   itself.
//! - An invite names the wallet of its counterpart when it joins; an open
//!   request names nobody. A waiting request is accepted by its id: the
//!   engine asks no more of the accepting player than a rating above zero,
//!   and leaves it to its caller to settle who may accept which request.
//! - A tolerance grows by a fixed number of rating points for each full
//!   second waited and stops at a cap, which also bounds a tolerance that
//!   was asked for above it.
//! - A request's join time is its time of creation, and time is counted in
//!   milliseconds since the Unix epoch. A clock that reads earlier than a
//!   join counts as no wait at all.
//! - Only the open pool is scanned for pairs, and only when an open request
//!   joins or a caller asks for it. Invites are resolved by acceptance. A
//!   match made by acceptance is an invite match, bound by no tolerance.
//! - A status is reported for requests that wait or are matched. A request
//!   that was cancelled or has expired stays in the registry and reports
//!   none.

pub mod api;
pub mod bound;
pub mod clock;
pub mod config;
pub mod ids;
pub mod laws;
pub mod model;
pub mod pairing;
pub mod partition;
pub mod preservation;
pub mod registry;
pub mod routes;
pub mod service;
pub mod store;
pub mod types;
