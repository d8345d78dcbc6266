//! The full schema of a match-history page. A response that carries a field
//! unknown to this schema is refused when it is decoded, so that a change of
//! the upstream format is noticed.

use vstd::prelude::*;

verus! {

#[derive(Copy, Clone, Debug, Default)]
pub struct AbilityUpgrade {
    pub ability: u16,
    pub time: u16,
    pub level: u16,
}

#[derive(Clone, Debug, Default)]
pub struct Unit {
    pub unitname: String,
    pub item_0: u16,
    pub item_1: u16,
    pub item_2: u16,
    pub item_3: u16,
    pub item_4: u16,
    pub item_5: u16,
    pub backpack_0: u16,
    pub backpack_1: u16,
    pub backpack_2: u16,
    pub item_neutral: u16,
}

#[derive(Clone, Debug, Default)]
pub struct Player {
    pub account_id: u32,
    pub player_slot: u8,
    pub team_number: u8,
    pub team_slot: u8,
    pub hero_id: u8,
    pub hero_variant: u8,
    pub item_0: u16,
    pub item_1: u16,
    pub item_2: u16,
    pub item_3: u16,
    pub item_4: u16,
    pub item_5: u16,
    pub backpack_0: u16,
    pub backpack_1: u16,
    pub backpack_2: u16,
    pub item_neutral: u16,
    pub kills: u8,
    pub deaths: u8,
    pub assists: u8,
    pub leaver_status: u8,
    pub last_hits: u16,
    pub denies: u16,
    pub gold_per_min: u16,
    pub xp_per_min: u16,
    pub level: u8,
    pub net_worth: u32,
    pub aghanims_scepter: u8,
    pub aghanims_shard: u8,
    pub moonshard: u8,
    pub hero_damage: u32,
    pub tower_damage: u32,
    pub hero_healing: u32,
    pub gold: u32,
    pub gold_spent: u32,
    pub scaled_hero_damage: u32,
    pub scaled_tower_damage: u32,
    pub scaled_hero_healing: u32,
    pub ability_upgrades: Vec<AbilityUpgrade>,
    pub additional_units: Vec<Unit>,
}

#[derive(Clone, Debug, Default)]
pub struct HeroSelection {
    pub is_pick: bool,
    pub hero_id: u8,
    pub team: u8,
    pub order: u8,
}

#[derive(Clone, Debug, Default)]
pub struct Match {
    pub players: Vec<Player>,
    pub radiant_win: bool,
    pub duration: u16,
    pub pre_game_duration: u16,
    pub start_time: u64,
    pub match_id: u64,
    pub match_seq_num: u64,
    pub tower_status_radiant: u32,
    pub tower_status_dire: u32,
    pub barracks_status_radiant: u32,
    pub barracks_status_dire: u32,
    pub cluster: u32,
    pub first_blood_time: u16,
    pub lobby_type: u8,
    pub human_players: u8,
    pub leagueid: u32,
    pub game_mode: u8,
    pub flags: u8,
    pub engine: u8,
    pub radiant_score: u16,
    pub dire_score: u16,
    pub radiant_team_id: u64,
    pub radiant_name: String,
    pub radiant_logo: u64,
    pub radiant_team_complete: u64,
    pub dire_team_id: u64,
    pub dire_name: String,
    pub dire_logo: u64,
    pub dire_team_complete: u64,
    pub radiant_captain: u64,
    pub dire_captain: u64,
    pub picks_bans: Vec<HeroSelection>,
}

#[derive(Clone, Debug, Default)]
pub struct MatchHistory {
    pub status: u8,
    pub matches: Vec<Match>,
}

#[derive(Clone, Debug, Default)]
pub struct MatchHistoryResponse {
    pub result: MatchHistory,
}

} // verus!
