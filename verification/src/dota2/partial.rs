//! The part of a match-history page that the recent-match lookup reads.
//! Fields beyond these are tolerated when a response is decoded.

use vstd::prelude::*;

verus! {

#[derive(Clone, Debug, Default)]
pub struct Player {
    pub account_id: u32,
    pub player_slot: u8,
    pub hero_id: u8,
}

#[derive(Clone, Debug, Default)]
pub struct Match {
    pub players: Vec<Player>,
    pub start_time: u64,
    pub match_id: u64,
    pub match_seq_num: u64,
    pub lobby_type: u8,
}

#[derive(Clone, Debug, Default)]
pub struct MatchHistory {
    pub status: u8,
    pub matches: Vec<Match>,
}

#[derive(Clone, Debug, Default)]
pub struct MatchHistoryResponse {
    pub result: MatchHistory,
}

} // verus!
