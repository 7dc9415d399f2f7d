//! The values the engine works on, and their mathematical views.

use vstd::prelude::*;

verus! {

/// Identity of a matchmaking request: the 128-bit value of its UUID.
pub type RequestId = u128;

/// Identity of a match: the 128-bit value of its UUID.
pub type MatchId = u128;

/// A point in time, in milliseconds since the Unix epoch.
pub type Timestamp = i64;

/// How a request wants to be paired.
#[derive(Clone, Copy, Debug, PartialEq, Eq, Structural)]
pub enum MatchType {
    /// Paired from the public pool by rating.
    Open,
    /// Paired with one named counterpart, by that player's acceptance.
    Invite,
}

/// Where a request stands in its life. Only `Waiting` can change.
#[derive(Clone, Copy, Debug, PartialEq, Eq, Structural)]
pub enum RequestStatus {
    Waiting,
    Matched,
    Cancelled,
    Expired,
}

/// What the engine reports when an operation could not be carried out.
#[derive(Clone, Copy, Debug, PartialEq, Eq, Structural)]
pub enum MatchmakingError {
    /// No request or match has the given id.
    NotFound,
    /// The request is already resolved, or the change asked for is no advance.
    InvalidTransition,
    /// The id is already taken.
    DuplicateId,
    /// The input breaks a constraint; nothing was changed.
    RejectedInput,
}

impl MatchmakingError {
    /// What the error says, in words.
    pub open spec fn text(self) -> Seq<char> {
        match self {
            MatchmakingError::NotFound => "not found"@,
            MatchmakingError::InvalidTransition => "request already resolved"@,
            MatchmakingError::DuplicateId => "id already taken"@,
            MatchmakingError::RejectedInput => "input rejected"@,
        }
    }

    /// What the error says, in words.
    pub fn message(&self) -> (text: String)
        ensures
            text@ == self.text(),
    {
        match self {
            MatchmakingError::NotFound => "not found".to_owned(),
            MatchmakingError::InvalidTransition => "request already resolved".to_owned(),
            MatchmakingError::DuplicateId => "id already taken".to_owned(),
            MatchmakingError::RejectedInput => "input rejected".to_owned(),
        }
    }
}

/// A player as captured when a request was made.
#[derive(Debug, PartialEq, Eq)]
pub struct Player {
    pub wallet_address: String,
    pub elo: u32,
    pub join_time: Timestamp,
}

pub struct PlayerView {
    pub wallet_address: Seq<char>,
    pub elo: u32,
    pub join_time: Timestamp,
}

impl View for Player {
    type V = PlayerView;

    open spec fn view(&self) -> PlayerView {
        PlayerView {
            wallet_address: self.wallet_address@,
            elo: self.elo,
            join_time: self.join_time,
        }
    }
}

impl Clone for Player {
    fn clone(&self) -> (copy: Self)
        ensures
            copy == *self,
    {
        Player {
            wallet_address: self.wallet_address.clone(),
            elo: self.elo,
            join_time: self.join_time,
        }
    }
}

/// The view of an optional string.
pub open spec fn text_view(text: Option<String>) -> Option<Seq<char>> {
    match text {
        Some(s) => Some(s@),
        None => None,
    }
}

/// Copies an optional string.
pub fn clone_text(text: &Option<String>) -> (copy: Option<String>)
    ensures
        copy == *text,
{
    match text {
        Some(s) => Some(s.clone()),
        None => None,
    }
}

/// A request to be paired.
#[derive(Debug, PartialEq, Eq)]
pub struct MatchRequest {
    pub id: RequestId,
    pub player: Player,
    pub match_type: MatchType,
    /// The wallet of the counterpart an invite names.
    pub invite_address: Option<String>,
    /// The largest rating gap the player accepts; the engine's default if absent.
    pub max_elo_diff: Option<u32>,
}

pub struct MatchRequestView {
    pub id: RequestId,
    pub player: PlayerView,
    pub match_type: MatchType,
    pub invite_address: Option<Seq<char>>,
    pub max_elo_diff: Option<u32>,
}

impl View for MatchRequest {
    type V = MatchRequestView;

    open spec fn view(&self) -> MatchRequestView {
        MatchRequestView {
            id: self.id,
            player: self.player@,
            match_type: self.match_type,
            invite_address: text_view(self.invite_address),
            max_elo_diff: self.max_elo_diff,
        }
    }
}

impl Clone for MatchRequest {
    fn clone(&self) -> (copy: Self)
        ensures
            copy == *self,
    {
        MatchRequest {
            id: self.id,
            player: self.player.clone(),
            match_type: self.match_type,
            invite_address: clone_text(&self.invite_address),
            max_elo_diff: self.max_elo_diff,
        }
    }
}

/// A request as the registry keeps it: the request, its status, and the match
/// that resolved it, if one did.
#[derive(Debug, PartialEq, Eq)]
pub struct RequestRecord {
    pub request: MatchRequest,
    pub status: RequestStatus,
    pub match_id: Option<MatchId>,
}

pub struct RequestRecordView {
    pub request: MatchRequestView,
    pub status: RequestStatus,
    pub match_id: Option<MatchId>,
}

impl View for RequestRecord {
    type V = RequestRecordView;

    open spec fn view(&self) -> RequestRecordView {
        RequestRecordView {
            request: self.request@,
            status: self.status,
            match_id: self.match_id,
        }
    }
}

impl Clone for RequestRecord {
    fn clone(&self) -> (copy: Self)
        ensures
            copy == *self,
    {
        RequestRecord {
            request: self.request.clone(),
            status: self.status,
            match_id: self.match_id,
        }
    }
}

/// Two requests resolved against each other. Never changed once made.
#[derive(Debug, PartialEq, Eq)]
pub struct Match {
    pub id: MatchId,
    /// The older request, or the inviter's.
    pub request_a: RequestId,
    /// The counterpart's request.
    pub request_b: RequestId,
    pub player_a: Player,
    pub player_b: Player,
    pub match_type: MatchType,
    pub created_at: Timestamp,
}

pub struct MatchView {
    pub id: MatchId,
    pub request_a: RequestId,
    pub request_b: RequestId,
    pub player_a: PlayerView,
    pub player_b: PlayerView,
    pub match_type: MatchType,
    pub created_at: Timestamp,
}

impl View for Match {
    type V = MatchView;

    open spec fn view(&self) -> MatchView {
        MatchView {
            id: self.id,
            request_a: self.request_a,
            request_b: self.request_b,
            player_a: self.player_a@,
            player_b: self.player_b@,
            match_type: self.match_type,
            created_at: self.created_at,
        }
    }
}

impl Clone for Match {
    fn clone(&self) -> (copy: Self)
        ensures
            copy == *self,
    {
        Match {
            id: self.id,
            request_a: self.request_a,
            request_b: self.request_b,
            player_a: self.player_a.clone(),
            player_b: self.player_b.clone(),
            match_type: self.match_type,
            created_at: self.created_at,
        }
    }
}

impl MatchView {
    /// Whether the match resolved the request `id`.
    pub open spec fn references(self, id: RequestId) -> bool {
        self.request_a == id || self.request_b == id
    }
}

/// Where a request stands in the engine, as a caller sees it.
#[derive(Clone, Copy, Debug, PartialEq, Eq, Structural)]
pub enum QueueStatus {
    /// Still waiting; `position` counts from 1 at the head of its pool.
    Waiting { position: usize },
    /// Resolved into the match `match_id`.
    Matched { match_id: MatchId },
}

/// What joining a pool answers: the request's id and where it stands.
#[derive(Clone, Copy, Debug, PartialEq, Eq, Structural)]
pub struct JoinResponse {
    pub request_id: RequestId,
    pub queue_status: QueueStatus,
}

} // verus!
