use kez::dota2::full;
use kez::dota2::{MatchDraft, MatchId, MatchMask, Side};
use kez::mask::HeroMask;

fn player(slot: u8, hero: u8) -> full::Player {
    full::Player { player_slot: slot, hero_id: hero, ..Default::default() }
}

fn game(id: u64, players: Vec<full::Player>) -> full::Match {
    full::Match { match_id: id, match_seq_num: id + 1000, players, ..Default::default() }
}

fn ten_players() -> Vec<full::Player> {
    vec![
        player(0, 14),
        player(1, 2),
        player(2, 255),
        player(3, 128),
        player(4, 127),
        player(128, 9),
        player(129, 1),
        player(130, 200),
        player(131, 64),
        player(132, 33),
    ]
}

#[test]
fn side_is_bit_seven_of_the_slot() {
    assert_eq!(Side::from(0u8), Side::Radiant);
    assert_eq!(Side::from(4u8), Side::Radiant);
    assert_eq!(Side::from(127u8), Side::Radiant);
    assert_eq!(Side::from(128u8), Side::Dire);
    assert_eq!(Side::from(132u8), Side::Dire);
    assert_eq!(Side::from(255u8), Side::Dire);
}

#[test]
fn match_id_from_number() {
    let id = MatchId::from(7_000_000_001u64);
    assert_eq!(id.match_id, 7_000_000_001);
}

#[test]
fn empty_mask_holds_no_hero() {
    let mask = HeroMask::empty();
    assert_eq!(mask.lo, 0);
    assert_eq!(mask.hi, 0);
    for hero in 0..=255u8 {
        assert!(!mask.contains(hero));
    }
}

#[test]
fn insert_sets_the_bit_of_the_hero() {
    let mut mask = HeroMask::empty();
    mask.insert(1);
    assert_eq!(mask.lo, 2);
    assert_eq!(mask.hi, 0);
    mask.insert(127);
    assert_eq!(mask.lo, 2 | (1u128 << 127));
    mask.insert(128);
    assert_eq!(mask.hi, 1);
    mask.insert(255);
    assert_eq!(mask.hi, 1 | (1u128 << 127));
    mask.insert(1);
    assert_eq!(mask.lo, 2 | (1u128 << 127));
    assert!(mask.contains(1));
    assert!(mask.contains(127));
    assert!(mask.contains(128));
    assert!(mask.contains(255));
    assert!(!mask.contains(0));
    assert!(!mask.contains(2));
    assert!(!mask.contains(129));
}

#[test]
fn from_heroes_is_the_or_of_the_bits() {
    let mask = HeroMask::from_heroes(&[1, 2, 130, 2]);
    assert_eq!(mask.lo, 0b110);
    assert_eq!(mask.hi, 0b100);
    assert_eq!(HeroMask::from_heroes(&[]), HeroMask::empty());
    assert_eq!(HeroMask::from_heroes(&[0]).lo, 1);
}

#[test]
fn covers_is_the_superset_test() {
    let side = HeroMask::from_heroes(&[1, 2, 3, 200, 201]);
    assert!(side.covers(&HeroMask::from_heroes(&[1, 200])));
    assert!(side.covers(&HeroMask::from_heroes(&[1, 2, 3, 200, 201])));
    assert!(side.covers(&HeroMask::empty()));
    assert!(!side.covers(&HeroMask::from_heroes(&[1, 4])));
    assert!(!side.covers(&HeroMask::from_heroes(&[202])));
    assert!(!side.covers(&HeroMask::from_heroes(&[1, 2, 3, 200, 201, 202])));
    assert!(!HeroMask::empty().covers(&HeroMask::from_heroes(&[0])));
}

#[test]
fn encode_puts_each_hero_on_its_side() {
    let mask = MatchMask::encode(&game(42, ten_players()));
    assert_eq!(mask.match_id, 42);
    assert_eq!(mask.radiant, HeroMask::from_heroes(&[14, 2, 255, 128, 127]));
    assert_eq!(mask.dire, HeroMask::from_heroes(&[9, 1, 200, 64, 33]));
}

#[test]
fn encode_leaves_out_the_unknown_hero() {
    let mask = MatchMask::encode(
        &game(43, vec![player(0, 0), player(1, 5), player(128, 0), player(129, 6)]),
    );
    assert_eq!(mask.radiant, HeroMask::from_heroes(&[5]));
    assert_eq!(mask.dire, HeroMask::from_heroes(&[6]));
    assert!(!mask.radiant.contains(0));
    assert!(!mask.dire.contains(0));
}

#[test]
fn encode_of_a_match_without_players_is_empty() {
    let mask = MatchMask::encode(&game(44, vec![]));
    assert_eq!(mask.match_id, 44);
    assert_eq!(mask.radiant, HeroMask::empty());
    assert_eq!(mask.dire, HeroMask::empty());
}

#[test]
fn decode_lists_the_heroes_in_ascending_order() {
    let draft = MatchMask::encode(&game(42, ten_players())).decode();
    assert_eq!(draft.match_id, 42);
    assert_eq!(draft.radiant, [2, 14, 127, 128, 255]);
    assert_eq!(draft.dire, [1, 9, 33, 64, 200]);
}

#[test]
fn decode_fills_up_with_zero() {
    let mask = MatchMask {
        match_id: 7,
        radiant: HeroMask::from_heroes(&[99, 3]),
        dire: HeroMask::empty(),
    };
    let draft = mask.decode();
    assert_eq!(draft.match_id, 7);
    assert_eq!(draft.radiant, [3, 99, 0, 0, 0]);
    assert_eq!(draft.dire, [0, 0, 0, 0, 0]);
}

#[test]
fn decode_keeps_the_five_lowest_heroes() {
    let mask = MatchMask {
        match_id: 8,
        radiant: HeroMask::from_heroes(&[60, 50, 40, 30, 20, 10]),
        dire: HeroMask::from_heroes(&[255, 254, 253, 252, 251, 250, 249]),
    };
    let draft = mask.decode();
    assert_eq!(draft.radiant, [10, 20, 30, 40, 50]);
    assert_eq!(draft.dire, [249, 250, 251, 252, 253]);
}

#[test]
fn decode_passes_over_hero_zero() {
    let mask = MatchMask { match_id: 9, radiant: HeroMask::from_heroes(&[0, 4]), dire: HeroMask::empty() };
    assert_eq!(mask.decode().radiant, [4, 0, 0, 0, 0]);
}

#[test]
fn round_trip_gives_back_the_hero_sets() {
    let players = vec![
        player(0, 77),
        player(1, 0),
        player(2, 12),
        player(3, 77),
        player(128, 201),
        player(129, 3),
        player(130, 150),
    ];
    let draft = MatchMask::encode(&game(1, players)).decode();
    let mut radiant: Vec<u8> = draft.radiant.iter().copied().filter(|hero| *hero != 0).collect();
    let mut dire: Vec<u8> = draft.dire.iter().copied().filter(|hero| *hero != 0).collect();
    radiant.sort();
    dire.sort();
    assert_eq!(radiant, vec![12, 77]);
    assert_eq!(dire, vec![3, 150, 201]);
}

#[test]
fn draft_of_a_match_is_what_its_mask_decodes_to() {
    let draft = MatchDraft::from(&game(42, ten_players()));
    assert_eq!(draft.match_id, 42);
    assert_eq!(draft.radiant, [2, 14, 127, 128, 255]);
    assert_eq!(draft.dire, [1, 9, 33, 64, 200]);
    let decoded = MatchMask::encode(&game(42, ten_players())).decode();
    assert_eq!(draft.radiant, decoded.radiant);
    assert_eq!(draft.dire, decoded.dire);
}

#[test]
fn draft_of_a_match_keeps_a_known_hero_behind_unknown_ones() {
    let players = vec![
        player(0, 0),
        player(1, 0),
        player(2, 0),
        player(3, 0),
        player(4, 0),
        player(5, 7),
        player(128, 0),
        player(129, 0),
        player(130, 0),
        player(131, 0),
        player(132, 0),
        player(133, 8),
    ];
    let draft = MatchDraft::from(&game(5, players));
    assert_eq!(draft.radiant, [7, 0, 0, 0, 0]);
    assert_eq!(draft.dire, [8, 0, 0, 0, 0]);
}

#[test]
fn draft_of_a_match_never_names_the_unknown_hero() {
    let players = vec![player(0, 0), player(1, 9), player(2, 0), player(128, 0), player(129, 8)];
    let draft = MatchDraft::from(&game(6, players));
    assert_eq!(draft.radiant, [9, 0, 0, 0, 0]);
    assert_eq!(draft.dire, [8, 0, 0, 0, 0]);
}

#[test]
fn draft_of_a_match_names_a_hero_once() {
    let players = vec![
        player(0, 7),
        player(1, 7),
        player(2, 7),
        player(3, 7),
        player(4, 7),
        player(5, 3),
        player(128, 12),
    ];
    let draft = MatchDraft::from(game(7, players));
    assert_eq!(draft.match_id, 7);
    assert_eq!(draft.radiant, [3, 7, 0, 0, 0]);
    assert_eq!(draft.dire, [12, 0, 0, 0, 0]);
}

#[test]
fn draft_of_a_match_with_six_heroes_on_a_side_keeps_the_five_lowest() {
    let players = vec![
        player(0, 60),
        player(1, 50),
        player(2, 40),
        player(3, 30),
        player(4, 20),
        player(5, 10),
    ];
    let draft = MatchDraft::from(&game(8, players));
    assert_eq!(draft.radiant, [10, 20, 30, 40, 50]);
    assert_eq!(draft.dire, [0, 0, 0, 0, 0]);
}
