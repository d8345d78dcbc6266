use kez::database::{drafts_of, index_masks, plan, rows_of_hero, table_name, QueryPlan};
use kez::dota2::MatchMask;
use kez::mask::HeroMask;
use kez::service::{default_count, find_matches, respond, QueryParameter};

fn mask(id: u64, radiant: &[u8], dire: &[u8]) -> MatchMask {
    MatchMask {
        match_id: id,
        radiant: HeroMask::from_heroes(radiant),
        dire: HeroMask::from_heroes(dire),
    }
}

fn index() -> Vec<MatchMask> {
    vec![
        mask(1, &[1, 2, 5, 6, 7], &[3, 8, 9, 10, 11]),
        mask(2, &[3, 8, 9, 10, 11], &[1, 2, 5, 6, 7]),
        mask(3, &[1, 3, 5, 6, 7], &[2, 8, 9, 10, 11]),
        mask(4, &[1, 2, 3, 6, 7], &[4, 8, 9, 10, 11]),
        mask(5, &[20, 21, 22, 23, 24], &[1, 2, 25, 26, 27]),
        mask(6, &[3, 21, 22, 23, 24], &[30, 31, 25, 26, 27]),
    ]
}

fn answers(plan: &QueryPlan, rows: &[MatchMask]) -> Vec<u64> {
    let table = rows_of_hero(rows, plan.pivot);
    table.iter().filter(|row| plan.matches(row)).map(|row| row.match_id).collect()
}

#[test]
fn no_plan_without_heroes() {
    assert!(plan(&[], &[], 10, 0).is_none());
}

#[test]
fn pivot_is_the_hero_with_the_fewest_rows() {
    let chosen = plan(&[(1, 1000), (2, 500)], &[(3, 10)], 10, 0).expect("heroes are named");
    assert_eq!(chosen.pivot, 3);
    assert_eq!(chosen.side, HeroMask::from_heroes(&[3]));
    assert_eq!(chosen.other, Some(HeroMask::from_heroes(&[1, 2])));
    assert_eq!(chosen.limit, 10);
    assert_eq!(chosen.offset, 0);
    assert_eq!(table_name(chosen.pivot), "index_mask_3");
}

#[test]
fn plan_accepts_both_ways_round() {
    let chosen = plan(&[(1, 1000), (2, 500)], &[(3, 10)], 10, 0).expect("heroes are named");
    assert_eq!(answers(&chosen, &index()), vec![1, 2]);
    assert!(chosen.matches(&mask(1, &[1, 2, 5, 6, 7], &[3, 8, 9, 10, 11])));
    assert!(chosen.matches(&mask(2, &[3, 8, 9, 10, 11], &[1, 2, 5, 6, 7])));
    assert!(!chosen.matches(&mask(3, &[1, 3, 5, 6, 7], &[2, 8, 9, 10, 11])));
    assert!(!chosen.matches(&mask(4, &[1, 2, 3, 6, 7], &[4, 8, 9, 10, 11])));
}

#[test]
fn pivot_of_the_first_team_wins_a_tie() {
    let chosen = plan(&[(1, 7), (2, 5)], &[(3, 5), (4, 9)], 10, 0).expect("heroes are named");
    assert_eq!(chosen.pivot, 2);
    assert_eq!(chosen.side, HeroMask::from_heroes(&[1, 2]));
    assert_eq!(chosen.other, Some(HeroMask::from_heroes(&[3, 4])));
    let first = plan(&[(1, 5), (2, 5)], &[], 10, 0).expect("heroes are named");
    assert_eq!(first.pivot, 1);
}

#[test]
fn one_team_is_looked_for_on_either_side() {
    let chosen = plan(&[(1, 40), (2, 30)], &[], 10, 0).expect("heroes are named");
    assert_eq!(chosen.pivot, 2);
    assert_eq!(chosen.side, HeroMask::from_heroes(&[1, 2]));
    assert_eq!(chosen.other, None);
    assert_eq!(answers(&chosen, &index()), vec![1, 2, 4, 5]);
    let second = plan(&[], &[(1, 40), (2, 30)], 10, 0).expect("heroes are named");
    assert_eq!(second.pivot, 2);
    assert_eq!(second.side, HeroMask::from_heroes(&[1, 2]));
    assert_eq!(second.other, None);
    assert_eq!(answers(&second, &index()), vec![1, 2, 4, 5]);
}

#[test]
fn swapped_teams_answer_the_same() {
    let rows = index();
    let teams: [(&[(u8, u64)], &[(u8, u64)]); 4] = [
        (&[(1, 1000), (2, 500)], &[(3, 10)]),
        (&[(3, 4)], &[(1, 4)]),
        (&[(21, 2), (22, 2)], &[]),
        (&[(1, 9), (2, 9), (5, 3)], &[(8, 3), (9, 100)]),
    ];
    for (team1, team2) in teams {
        let plain = plan(team1, team2, 100, 0).expect("heroes are named");
        let swapped = plan(team2, team1, 100, 0).expect("heroes are named");
        assert_eq!(answers(&plain, &rows), answers(&swapped, &rows));
        for row in &rows {
            assert_eq!(plain.matches(row), swapped.matches(row));
        }
    }
}

#[test]
fn every_answer_is_in_the_table_of_the_pivot() {
    let rows = index();
    let chosen = plan(&[(1, 1000), (2, 500)], &[(3, 10)], 10, 0).expect("heroes are named");
    let everywhere: Vec<u64> =
        rows.iter().filter(|row| chosen.matches(row)).map(|row| row.match_id).collect();
    assert_eq!(everywhere, answers(&chosen, &rows));
}

#[test]
fn limit_is_capped_at_a_hundred() {
    assert_eq!(plan(&[(1, 1)], &[], 100, 0).expect("a hero is named").limit, 100);
    assert_eq!(plan(&[(1, 1)], &[], 101, 7).expect("a hero is named").limit, 100);
    assert_eq!(plan(&[(1, 1)], &[], usize::MAX, 7).expect("a hero is named").limit, 100);
    assert_eq!(plan(&[(1, 1)], &[], 0, 7).expect("a hero is named").limit, 0);
    assert_eq!(plan(&[(1, 1)], &[], 99, 7).expect("a hero is named").offset, 7);
}

#[test]
fn hero_zero_is_never_found() {
    let chosen = plan(&[(0, 0)], &[], 10, 0).expect("a hero is named");
    assert_eq!(chosen.pivot, 0);
    assert!(answers(&chosen, &index()).is_empty());
}

#[test]
fn table_names_carry_the_hero_id() {
    assert_eq!(table_name(0), "index_mask_0");
    assert_eq!(table_name(9), "index_mask_9");
    assert_eq!(table_name(10), "index_mask_10");
    assert_eq!(table_name(255), "index_mask_255");
}

#[test]
fn each_match_goes_into_the_tables_of_its_heroes() {
    let rows = index();
    let tables = index_masks(&rows);
    assert_eq!(tables.len(), 256);
    let ids = |hero: usize| tables[hero].iter().map(|row| row.match_id).collect::<Vec<u64>>();
    assert_eq!(ids(1), vec![1, 2, 3, 4, 5]);
    assert_eq!(ids(3), vec![1, 2, 3, 4, 6]);
    assert_eq!(ids(4), vec![4]);
    assert_eq!(ids(31), vec![6]);
    assert_eq!(ids(0), Vec::<u64>::new());
    assert_eq!(ids(255), Vec::<u64>::new());
    let total: usize = tables.iter().map(|table| table.len()).sum();
    assert_eq!(total, 60);
    assert_eq!(tables[3], rows_of_hero(&rows, 3));
}

#[test]
fn drafts_keep_the_order_of_the_rows() {
    let drafts = drafts_of(&index());
    assert_eq!(drafts.len(), 6);
    assert_eq!(drafts[0].match_id, 1);
    assert_eq!(drafts[0].radiant, [1, 2, 5, 6, 7]);
    assert_eq!(drafts[0].dire, [3, 8, 9, 10, 11]);
    assert_eq!(drafts[5].match_id, 6);
    assert_eq!(drafts[5].radiant, [3, 21, 22, 23, 24]);
    assert_eq!(drafts[5].dire, [25, 26, 27, 30, 31]);
}

#[test]
fn default_count_is_ten() {
    assert_eq!(default_count(), 10);
}

#[test]
fn request_is_planned_with_the_counts_of_its_heroes() {
    let para = QueryParameter { team1: vec![1, 2], team2: vec![3], count: 1000, offset: 20 };
    let chosen = find_matches(&para, &[1000, 500], &[10]).expect("heroes are named");
    assert_eq!(chosen.pivot, 3);
    assert_eq!(chosen.side, HeroMask::from_heroes(&[3]));
    assert_eq!(chosen.other, Some(HeroMask::from_heroes(&[1, 2])));
    assert_eq!(chosen.limit, 100);
    assert_eq!(chosen.offset, 20);
}

#[test]
fn request_without_heroes_or_counts_has_no_plan() {
    let nobody = QueryParameter { team1: vec![], team2: vec![], count: 10, offset: 0 };
    assert!(find_matches(&nobody, &[], &[]).is_none());
    let para = QueryParameter { team1: vec![1, 2], team2: vec![3], count: 10, offset: 0 };
    assert!(find_matches(&para, &[1000], &[10]).is_none());
    assert!(find_matches(&para, &[1000, 500], &[]).is_none());
}

#[test]
fn failed_scan_is_answered_with_no_match() {
    assert!(respond(None).is_empty());
    let drafts = respond(Some(index()));
    assert_eq!(drafts.len(), 6);
    assert_eq!(drafts[2].match_id, 3);
    assert_eq!(drafts[2].dire, [2, 8, 9, 10, 11]);
}
