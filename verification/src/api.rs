//! The shapes of what callers send and receive, and the texts that answer them.

use vstd::prelude::*;
use crate::types::{
    MatchRequest,
    MatchRequestView,
    MatchType,
    Player,
    PlayerView,
    QueueStatus,
    RequestId,
    Timestamp,
    text_view,
};

verus! {

/// What a player sends to join a pool.
#[derive(Debug, PartialEq, Eq)]
pub struct JoinQueueRequest {
    pub wallet_address: String,
    pub elo: u32,
    pub match_type: MatchType,
    pub invite_address: Option<String>,
    pub max_elo_diff: Option<u32>,
}

impl JoinQueueRequest {
    /// The request to be paired that these fields describe, under the id
    /// `id`, for a player who joined at `join_time`.
    pub open spec fn request(self, id: RequestId, join_time: Timestamp) -> MatchRequestView {
        MatchRequestView {
            id,
            player: PlayerView { wallet_address: self.wallet_address@, elo: self.elo, join_time },
            match_type: self.match_type,
            invite_address: text_view(self.invite_address),
            max_elo_diff: self.max_elo_diff,
        }
    }

    /// Makes the request to be paired that these fields describe, under the
    /// id `id`, for a player who joined at `join_time`.
    pub fn into_match_request(self, id: RequestId, join_time: Timestamp) -> (request: MatchRequest)
        ensures
            request@ == self.request(id, join_time),
    {
        MatchRequest {
            id,
            player: Player { wallet_address: self.wallet_address, elo: self.elo, join_time },
            match_type: self.match_type,
            invite_address: self.invite_address,
            max_elo_diff: self.max_elo_diff,
        }
    }
}

/// What a player sends to accept an invite.
#[derive(Debug, PartialEq, Eq)]
pub struct AcceptInviteRequest {
    pub wallet_address: String,
    pub elo: u32,
    pub inviter_request_id: RequestId,
}

impl AcceptInviteRequest {
    /// The accepting player, who accepted at `join_time`.
    pub open spec fn player(self, join_time: Timestamp) -> PlayerView {
        PlayerView { wallet_address: self.wallet_address@, elo: self.elo, join_time }
    }

    /// Makes the accepting player, who accepted at `join_time`.
    pub fn into_player(self, join_time: Timestamp) -> (player: Player)
        ensures
            player@ == self.player(join_time),
    {
        Player { wallet_address: self.wallet_address, elo: self.elo, join_time }
    }
}

/// What a player sends to withdraw a request.
#[derive(Clone, Copy, Debug, PartialEq, Eq, Structural)]
pub struct CancelRequest {
    pub request_id: RequestId,
}

/// The answer to a status query.
#[derive(Debug, PartialEq, Eq)]
pub struct StatusResponse {
    pub status: String,
    pub queue_status: Option<QueueStatus>,
}

/// The text that answers a status query.
pub open spec fn status_text(found: bool) -> Seq<char> {
    if found {
        "In queue"@
    } else {
        "Request not found"@
    }
}

/// The text that answers a cancellation.
pub open spec fn cancel_text(cancelled: bool) -> Seq<char> {
    if cancelled {
        "Request cancelled successfully"@
    } else {
        "Request not found"@
    }
}

impl StatusResponse {
    /// The answer for what a status query found.
    pub fn from_lookup(queue_status: Option<QueueStatus>) -> (response: Self)
        ensures
            response.queue_status == queue_status,
            response.status@ == status_text(queue_status.is_some()),
    {
        let status = if queue_status.is_some() {
            "In queue".to_owned()
        } else {
            "Request not found".to_owned()
        };
        StatusResponse { status, queue_status }
    }
}

/// The text that tells a player whether a cancellation took effect.
pub fn cancel_message(cancelled: bool) -> (text: String)
    ensures
        text@ == cancel_text(cancelled),
{
    if cancelled {
        "Request cancelled successfully".to_owned()
    } else {
        "Request not found".to_owned()
    }
}

/// The text that tells a player that no invite could be accepted.
pub fn invite_not_found_message() -> (text: String)
    ensures
        text@ == "Invite not found"@,
{
    "Invite not found".to_owned()
}

/// The text that tells a caller that no match has the id asked for.
pub fn match_not_found_message() -> (text: String)
    ensures
        text@ == "Match not found"@,
{
    "Match not found".to_owned()
}

/// The description of the WebSocket protocol, as Markdown.
pub const WEBSOCKET_DOCUMENTATION: &'static str = r#"
# WebSocket Protocol Documentation

## Connection

Connect to the WebSocket server:
```
ws://hostname:port/ws/game/{game_id}?token={jwt_token}
```

## Event Types

### Player Joins Game
```json
{
  "type": "join",
  "data": {
    "player_id": "uuid",
    "username": "string",
    "game_id": "uuid"
  }
}
```

### Player Leaves Game
```json
{
  "type": "leave",
  "data": {
    "player_id": "uuid",
    "game_id": "uuid"
  }
}
```

### Move Made
```json
{
  "type": "move",
  "data": {
    "player_id": "uuid",
    "game_id": "uuid",
    "move": "e2e4", 
    "fen": "rnbqkbnr/pppp1ppp/8/4p3/4P3/8/PPPP1PPP/RNBQKBNR w KQkq e6 0 2",
    "time_remaining": 298 
  }
}
```

### Game State Update
```json
{
  "type": "state_update",
  "data": {
    "game_id": "uuid",
    "status": "in_progress | checkmate | stalemate | draw | time_forfeit",
    "current_turn": "white | black",
    "white_time_remaining": 290,
    "black_time_remaining": 300
  }
}
```

### Chat Message
```json
{
  "type": "chat",
  "data": {
    "player_id": "uuid",
    "username": "string",
    "message": "string",
    "timestamp": "ISO 8601 timestamp"
  }
}
```

## Error Messages
```json
{
  "type": "error",
  "data": {
    "code": "authentication_error | invalid_move | not_your_turn | game_not_found",
    "message": "string"
  }
}
```
"#;

/// The description of the WebSocket protocol that clients of the platform
/// follow once a match has become a game.
pub fn websocket_documentation() -> (text: String)
    ensures
        text@ == WEBSOCKET_DOCUMENTATION@,
{
    WEBSOCKET_DOCUMENTATION.to_owned()
}

} // verus!
