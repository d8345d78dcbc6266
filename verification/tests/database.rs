use kez::database::{plan, Database};
use kez::dota2::Side;
use kez::mask::HeroMask;

fn number(heroes: &str) -> String {
    format!("arraySum(arrayMap(h -> bitShiftLeft(toUInt256(1), h), [{}]))", heroes)
}

fn holds(side: &str, heroes: &str) -> String {
    format!("(bitAnd({}, {}) = {})", side, number(heroes), number(heroes))
}

#[test]
fn sides_are_named_like_their_columns() {
    assert_eq!(Side::Radiant.name(), "radiant");
    assert_eq!(Side::Dire.name(), "dire");
}

#[test]
fn heroes_of_a_mask_ascend() {
    assert_eq!(HeroMask::from_heroes(&[200, 3, 17, 3, 0, 255]).heroes(), vec![0, 3, 17, 200, 255]);
    assert_eq!(HeroMask::empty().heroes(), Vec::<u8>::new());
    assert_eq!(HeroMask::from_heroes(&[128]).heroes(), vec![128]);
    let all: Vec<u8> = (0..=255).collect();
    assert_eq!(HeroMask::from_heroes(&all).heroes(), all);
}

#[test]
fn database_is_created_where_it_is_missing() {
    assert_eq!(Database::new("dota2").create_database(), "CREATE DATABASE IF NOT EXISTS dota2");
}

#[test]
fn hero_table_holds_the_id_and_the_two_masks() {
    assert_eq!(
        Database::new("dota2").create_table(42),
        "CREATE TABLE IF NOT EXISTS dota2.index_mask_42 (match_id UInt64, radiant UInt256, dire UInt256) ENGINE = MergeTree() PARTITION BY intDiv(match_id, 100000000) ORDER BY match_id PRIMARY KEY match_id"
    );
}

#[test]
fn scan_of_one_team_looks_on_either_side() {
    let chosen = plan(&[(7, 1)], &[], 5, 2).expect("a hero is named");
    assert_eq!(
        Database::new("d").query_matches(&chosen),
        "SELECT ?fields FROM d.index_mask_7 WHERE ((bitAnd(radiant, arraySum(arrayMap(h -> bitShiftLeft(toUInt256(1), h), [7]))) = arraySum(arrayMap(h -> bitShiftLeft(toUInt256(1), h), [7]))) OR (bitAnd(dire, arraySum(arrayMap(h -> bitShiftLeft(toUInt256(1), h), [7]))) = arraySum(arrayMap(h -> bitShiftLeft(toUInt256(1), h), [7])))) ORDER BY match_id DESC LIMIT 5 OFFSET 2"
    );
}

#[test]
fn scan_lists_the_heroes_with_commas() {
    let chosen = plan(&[(200, 9), (3, 4), (17, 9)], &[], 100, 0).expect("heroes are named");
    let expected = format!(
        "SELECT ?fields FROM dota2.index_mask_3 WHERE ({} OR {}) ORDER BY match_id DESC LIMIT 100 OFFSET 0",
        holds("radiant", "3,17,200"),
        holds("dire", "3,17,200"),
    );
    assert_eq!(Database::new("dota2").query_matches(&chosen), expected);
}

#[test]
fn scan_of_two_teams_looks_both_ways_round() {
    let chosen = plan(&[(1, 1000), (2, 500)], &[(3, 10)], 10, 0).expect("heroes are named");
    let expected = format!(
        "SELECT ?fields FROM dota2.index_mask_3 WHERE (({} AND {}) OR ({} AND {})) ORDER BY match_id DESC LIMIT 10 OFFSET 0",
        holds("radiant", "3"),
        holds("dire", "1,2"),
        holds("radiant", "1,2"),
        holds("dire", "3"),
    );
    assert_eq!(Database::new("dota2").query_matches(&chosen), expected);
}

#[test]
fn scan_carries_limit_and_offset() {
    let chosen = plan(&[(9, 1)], &[], 1000, 12345).expect("a hero is named");
    let sql = Database::new("dota2").query_matches(&chosen);
    assert!(sql.ends_with(" ORDER BY match_id DESC LIMIT 100 OFFSET 12345"));
    assert!(sql.starts_with("SELECT ?fields FROM dota2.index_mask_9 WHERE "));
}

#[test]
fn rows_of_a_hero_table_are_counted() {
    assert_eq!(Database::new("dota2").count(3), "SELECT count() FROM dota2.index_mask_3");
    assert_eq!(Database::new("d").count(255), "SELECT count() FROM d.index_mask_255");
}
