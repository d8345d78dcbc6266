//! The index of masks, one table for each hero, and the planner of the
//! queries on it. A query names the heroes of two teams; the planner picks
//! the table of the hero that has the fewest rows and states which rows of
//! it answer the query.

use crate::dota2::{MatchDraft, MatchMask, Side};
use crate::mask::{members, HeroMask};
use crate::text::{decimal, decimal_text};
use vstd::prelude::*;
use vstd::string::StringExecFns;

verus! {

/// The most rows that one query returns.
pub const MAX_LIMIT: usize = 100;

/// Whether `hero` played in the match of `mask`, on either side.
pub open spec fn played(mask: MatchMask, hero: u8) -> bool {
    mask.radiant@.contains(hero) || mask.dire@.contains(hero)
}

/// Whether a mask belongs into the table of `hero`.
pub open spec fn indexed_under(hero: u8) -> spec_fn(MatchMask) -> bool {
    |mask: MatchMask| played(mask, hero)
}

/// The name of the table of `hero`.
pub open spec fn table_name_of(hero: u8) -> Seq<char> {
    "index_mask_"@ + decimal(hero as nat)
}

/// The name of the table of `hero`.
pub fn table_name(hero: u8) -> (name: String)
    ensures
        name@ == table_name_of(hero),
{
    String::from_str("index_mask_").concat(decimal_text(hero as u64).as_str())
}

/// The rows that a batch of masks adds to the table of `hero`: the masks of
/// the matches in which the hero played, in the order of the batch.
pub fn rows_of_hero(masks: &[MatchMask], hero: u8) -> (rows: Vec<MatchMask>)
    ensures
        rows@ == masks@.filter(indexed_under(hero)),
{
    let mut rows: Vec<MatchMask> = Vec::new();
    let mut i: usize = 0;
    proof {
        reveal(Seq::filter);
        assert(masks@.take(0).len() == 0);
    }
    while i < masks.len()
        invariant
            i <= masks.len(),
            rows@ == masks@.take(i as int).filter(indexed_under(hero)),
        decreases masks.len() - i,
    {
        proof {
            reveal(Seq::filter);
            assert(masks@.take(i + 1).drop_last() == masks@.take(i as int));
        }
        let mask = masks[i];
        if mask.radiant.contains(hero) || mask.dire.contains(hero) {
            rows.push(mask);
        }
        i += 1;
    }
    assert(masks@.take(i as int) == masks@);
    rows
}

/// The rows that a batch of masks adds to the tables: at place `h` those of
/// the table of hero `h`, for each of the 256 hero ids.
pub fn index_masks(masks: &[MatchMask]) -> (tables: Vec<Vec<MatchMask>>)
    ensures
        tables@.len() == 256,
        forall|hero: u8| #[trigger] tables@[hero as int]@ == masks@.filter(indexed_under(hero)),
{
    let mut tables: Vec<Vec<MatchMask>> = Vec::new();
    let mut hero: u16 = 0;
    while hero < 256
        invariant
            hero <= 256,
            tables@.len() == hero,
            forall|h: u8|
                h < hero ==> #[trigger] tables@[h as int]@ == masks@.filter(indexed_under(h)),
        decreases 256 - hero,
    {
        tables.push(rows_of_hero(masks, hero as u8));
        hero += 1;
    }
    tables
}

/// The heroes under which a mask is indexed.
pub open spec fn tables_of(mask: MatchMask) -> Set<u8> {
    Set::new(|hero: u8| played(mask, hero))
}

/// A match adds a row to the table of each of its heroes and to no other:
/// to ten tables at most.
pub proof fn lemma_rows_per_match(mask: MatchMask)
    requires
        mask.wf(),
    ensures
        tables_of(mask) == mask.radiant@.union(mask.dire@),
        tables_of(mask).finite(),
        tables_of(mask).len() <= 10,
{
    assert(tables_of(mask) =~= mask.radiant@.union(mask.dire@));
    vstd::set_lib::lemma_len_union(mask.radiant@, mask.dire@);
}

/// The ids of the matches that a table holds.
pub open spec fn match_ids(rows: Seq<MatchMask>) -> Set<u64> {
    Set::new(|id: u64| exists|i: int| 0 <= i < rows.len() && (#[trigger] rows[i]).match_id == id)
}

/// Rows that are written a second time add no match to a table: a batch
/// that is persisted again after a crash leaves the table with the matches
/// it had.
pub proof fn lemma_rows_again(table: Seq<MatchMask>, rows: Seq<MatchMask>)
    ensures
        match_ids(table + rows + rows) == match_ids(table + rows),
{
    let once = table + rows;
    let twice = table + rows + rows;
    assert forall|id: u64| match_ids(twice).contains(id) <==> match_ids(once).contains(id) by {
        if match_ids(twice).contains(id) {
            let i = choose|i: int| 0 <= i < twice.len() && (#[trigger] twice[i]).match_id == id;
            if i < once.len() {
                assert(once[i].match_id == id);
            } else {
                assert(once[i - rows.len()].match_id == id);
            }
        }
        if match_ids(once).contains(id) {
            let i = choose|i: int| 0 <= i < once.len() && (#[trigger] once[i]).match_id == id;
            assert(twice[i].match_id == id);
        }
    }
    assert(match_ids(twice) =~= match_ids(once));
}

/// The index of the first entry of `entries` that has the least count, 0
/// where there is no entry.
pub open spec fn cheapest(entries: Seq<(u8, u64)>) -> int
    decreases entries.len(),
{
    if entries.len() <= 1 {
        0
    } else {
        let rest = cheapest(entries.drop_last());
        if entries.last().1 < entries[rest].1 {
            entries.len() - 1
        } else {
            rest
        }
    }
}

/// The cheapest entry has the least count, and is the first that has it.
pub proof fn lemma_cheapest(entries: Seq<(u8, u64)>)
    requires
        entries.len() > 0,
    ensures
        0 <= cheapest(entries) < entries.len(),
        forall|i: int|
            0 <= i < entries.len() ==> entries[cheapest(entries)].1 <= (#[trigger] entries[i]).1,
        forall|i: int|
            0 <= i < cheapest(entries) ==> entries[cheapest(entries)].1 < (#[trigger] entries[i]).1,
    decreases entries.len(),
{
    if entries.len() > 1 {
        let init = entries.drop_last();
        lemma_cheapest(init);
        assert forall|i: int| 0 <= i < entries.len() implies entries[cheapest(entries)].1 <= (
        #[trigger] entries[i]).1 by {
            if i < init.len() {
                assert(init[i] == entries[i]);
            }
        }
        assert forall|i: int| 0 <= i < cheapest(entries) implies entries[cheapest(entries)].1 < (
        #[trigger] entries[i]).1 by {
            assert(init[i] == entries[i]);
        }
    }
}

/// The heroes of a team, which is given as entries of a hero and the number
/// of rows in the hero's table.
pub open spec fn team_heroes(team: Seq<(u8, u64)>) -> Set<u8> {
    Set::new(|hero: u8| exists|i: int| 0 <= i < team.len() && (#[trigger] team[i]).0 == hero)
}

/// What the planner decided: the table to scan and the rows to take from it.
#[derive(Clone, Copy, Debug)]
pub struct QueryPlan {
    /// The hero whose table is scanned.
    pub pivot: u8,
    /// The heroes of the team that the pivot belongs to.
    pub side: HeroMask,
    /// The heroes of the other team, where the query names one.
    pub other: Option<HeroMask>,
    /// Number of rows to return at most.
    pub limit: usize,
    /// Number of rows to pass over first, from the highest match id down.
    pub offset: usize,
}

impl QueryPlan {
    /// Whether a row answers the query. With one team, its heroes played
    /// together on one of the sides. With two teams, one team played on one
    /// side and the other on the other, whichever way round.
    pub open spec fn accepts(self, mask: MatchMask) -> bool {
        match self.other {
            None => self.side@.subset_of(mask.radiant@) || self.side@.subset_of(mask.dire@),
            Some(other) => (self.side@.subset_of(mask.radiant@) && other@.subset_of(mask.dire@))
                || (other@.subset_of(mask.radiant@) && self.side@.subset_of(mask.dire@)),
        }
    }

    /// Whether a row answers the query.
    pub fn matches(&self, mask: &MatchMask) -> (answers: bool)
        ensures
            answers == self.accepts(*mask),
    {
        match &self.other {
            None => mask.radiant.covers(&self.side) || mask.dire.covers(&self.side),
            Some(other) => (mask.radiant.covers(&self.side) && mask.dire.covers(other)) || (
            mask.radiant.covers(other) && mask.dire.covers(&self.side)),
        }
    }
}

/// Whether `plan` is the plan for the query that names `team1` and `team2`:
/// the pivot is the first hero, team 1 before team 2, whose table has the
/// fewest rows; its team is the side of the plan, and the other team, where
/// it names a hero, the other side. The limit is capped.
pub open spec fn planned(
    team1: Seq<(u8, u64)>,
    team2: Seq<(u8, u64)>,
    limit: usize,
    offset: usize,
    plan: QueryPlan,
) -> bool {
    let all = team1 + team2;
    let at = cheapest(all);
    let (own, rest) = if at < team1.len() {
        (team1, team2)
    } else {
        (team2, team1)
    };
    &&& all.len() > 0
    &&& plan.pivot == all[at].0
    &&& plan.side@ == team_heroes(own)
    &&& match plan.other {
        None => rest.len() == 0,
        Some(other) => rest.len() > 0 && other@ == team_heroes(rest),
    }
    &&& plan.limit == if limit <= 100 {
        limit
    } else {
        100
    }
    &&& plan.offset == offset
}

/// The mask of the heroes of a team.
fn team_mask(team: &[(u8, u64)]) -> (mask: HeroMask)
    ensures
        mask@ == team_heroes(team@),
{
    let mut mask = HeroMask::empty();
    let mut i: usize = 0;
    while i < team.len()
        invariant
            i <= team.len(),
            mask@ == team_heroes(team@.take(i as int)),
        decreases team.len() - i,
    {
        let ghost before = team@.take(i as int);
        let ghost after = team@.take(i + 1);
        mask.insert(team[i].0);
        proof {
            assert forall|hero: u8|
                team_heroes(after).contains(hero) <==> team_heroes(before).insert(
                    team@[i as int].0,
                ).contains(hero) by {
                if team_heroes(after).contains(hero) {
                    let j = choose|j: int| 0 <= j < after.len() && (#[trigger] after[j]).0 == hero;
                    if j < i {
                        assert(before[j].0 == hero);
                    }
                }
                if team_heroes(before).contains(hero) {
                    let j = choose|j: int|
                        0 <= j < before.len() && (#[trigger] before[j]).0 == hero;
                    assert(after[j].0 == hero);
                }
                if hero == team@[i as int].0 {
                    assert(after[i as int].0 == hero);
                }
            }
            assert(team_heroes(after) =~= team_heroes(before).insert(team@[i as int].0));
        }
        i += 1;
    }
    proof {
        assert(team@.take(i as int) == team@);
        assert(team_heroes(team@.take(0)) =~= Set::<u8>::empty()) by {
            assert forall|hero: u8| !team_heroes(team@.take(0)).contains(hero) by {}
        }
    }
    mask
}

fn append_entries(all: &mut Vec<(u8, u64)>, team: &[(u8, u64)])
    ensures
        final(all)@ == old(all)@ + team@,
{
    let mut i: usize = 0;
    while i < team.len()
        invariant
            i <= team.len(),
            all@ == old(all)@ + team@.take(i as int),
        decreases team.len() - i,
    {
        all.push(team[i]);
        assert(team@.take(i + 1) == team@.take(i as int).push(team@[i as int]));
        i += 1;
    }
    assert(team@.take(i as int) == team@);
}

/// Plans the query that names two teams, each hero with the number of rows
/// that its table holds. There is no plan where no hero is named.
pub fn plan(team1: &[(u8, u64)], team2: &[(u8, u64)], limit: usize, offset: usize) -> (plan:
    Option<QueryPlan>)
    ensures
        plan is None <==> team1@.len() == 0 && team2@.len() == 0,
        plan matches Some(plan) ==> planned(team1@, team2@, limit, offset, plan),
{
    if team1.len() == 0 && team2.len() == 0 {
        return None;
    }
    let mut all: Vec<(u8, u64)> = Vec::new();
    append_entries(&mut all, team1);
    append_entries(&mut all, team2);
    assert(all@ =~= team1@ + team2@);
    let mut at: usize = 0;
    let mut i: usize = 1;
    while i < all.len()
        invariant
            1 <= i <= all.len(),
            at == cheapest(all@.take(i as int)),
            at < i,
        decreases all.len() - i,
    {
        proof {
            assert(all@.take(i + 1).drop_last() == all@.take(i as int));
        }
        if all[i].1 < all[at].1 {
            at = i;
        }
        i += 1;
    }
    assert(all@.take(i as int) == all@);
    let pivot = all[at];
    let in_first = at < team1.len();
    let capped = if limit <= MAX_LIMIT {
        limit
    } else {
        MAX_LIMIT
    };
    let mask1 = team_mask(team1);
    let mask2 = team_mask(team2);
    let plan = if in_first {
        QueryPlan {
            pivot: pivot.0,
            side: mask1,
            other: if team2.len() > 0 {
                Some(mask2)
            } else {
                None
            },
            limit: capped,
            offset,
        }
    } else {
        QueryPlan {
            pivot: pivot.0,
            side: mask2,
            other: if team1.len() > 0 {
                Some(mask1)
            } else {
                None
            },
            limit: capped,
            offset,
        }
    };
    Some(plan)
}

/// The rows that the scan of a plan returns from an index of `matches`: the
/// rows of the pivot's table, which holds the matches in which the pivot
/// played, that answer the query.
pub open spec fn selected(matches: Set<MatchMask>, plan: QueryPlan) -> Set<MatchMask> {
    Set::new(
        |mask: MatchMask| matches.contains(mask) && played(mask, plan.pivot) && plan.accepts(mask),
    )
}

/// The table that a plan scans has the fewest rows of all the tables of the
/// heroes that the query names.
pub proof fn lemma_pivot_is_cheapest(
    team1: Seq<(u8, u64)>,
    team2: Seq<(u8, u64)>,
    limit: usize,
    offset: usize,
    plan: QueryPlan,
)
    requires
        planned(team1, team2, limit, offset, plan),
    ensures
        exists|at: int|
            0 <= at < (team1 + team2).len() && (#[trigger] (team1 + team2)[at]).0 == plan.pivot
                && forall|i: int|
                0 <= i < (team1 + team2).len() ==> (team1 + team2)[at].1 <= (#[trigger] (team1
                    + team2)[i]).1,
{
    let all = team1 + team2;
    lemma_cheapest(all);
    let at = cheapest(all);
    assert(all[at].0 == plan.pivot);
}

/// The pivot played in every match that answers the query, so that the scan
/// of the pivot's table misses none of them.
pub proof fn lemma_pivot_played(
    team1: Seq<(u8, u64)>,
    team2: Seq<(u8, u64)>,
    limit: usize,
    offset: usize,
    plan: QueryPlan,
    mask: MatchMask,
)
    requires
        planned(team1, team2, limit, offset, plan),
        plan.accepts(mask),
    ensures
        played(mask, plan.pivot),
{
    let all = team1 + team2;
    lemma_cheapest(all);
    let at = cheapest(all);
    if at < team1.len() {
        assert(team1[at].0 == plan.pivot);
    } else {
        assert(team2[at - team1.len()].0 == plan.pivot);
    }
    assert(plan.side@.contains(plan.pivot));
}

/// A query answers the same with its teams swapped: the plans accept the
/// same rows, and their scans return the same rows from any index.
pub proof fn lemma_plan_symmetric(
    team1: Seq<(u8, u64)>,
    team2: Seq<(u8, u64)>,
    limit: usize,
    offset: usize,
    plan: QueryPlan,
    swapped: QueryPlan,
    matches: Set<MatchMask>,
)
    requires
        planned(team1, team2, limit, offset, plan),
        planned(team2, team1, limit, offset, swapped),
    ensures
        forall|mask: MatchMask| plan.accepts(mask) <==> swapped.accepts(mask),
        selected(matches, plan) == selected(matches, swapped),
        plan.limit == swapped.limit,
        plan.offset == swapped.offset,
{
    lemma_cheapest(team1 + team2);
    lemma_cheapest(team2 + team1);
    assert forall|mask: MatchMask| plan.accepts(mask) <==> swapped.accepts(mask) by {}
    assert forall|mask: MatchMask|
        selected(matches, plan).contains(mask) <==> selected(matches, swapped).contains(mask) by {
        if plan.accepts(mask) {
            lemma_pivot_played(team1, team2, limit, offset, plan, mask);
            lemma_pivot_played(team2, team1, limit, offset, swapped, mask);
        }
    }
    assert(selected(matches, plan) =~= selected(matches, swapped));
}

/// The text of a list of heroes: their ids in decimal, with a comma
/// between one and the next.
pub open spec fn joined(heroes: Seq<u8>) -> Seq<char>
    decreases heroes.len(),
{
    if heroes.len() == 0 {
        Seq::empty()
    } else if heroes.len() == 1 {
        decimal(heroes[0] as nat)
    } else {
        joined(heroes.drop_last()) + seq![','] + decimal(heroes.last() as nat)
    }
}

/// Calls `itertools::Itertools::format` on the ids with the separator `","`
/// and writes the result out. Not proved: that the text is the ids in
/// order, each as `u8` is displayed, in decimal without padding, with the
/// separator between two of them and not behind the last.
#[verifier::external_body]
fn join_heroes(heroes: &[u8]) -> (text: String)
    ensures
        text@ == joined(heroes@),
{
    format!("{}", itertools::Itertools::format(heroes.iter(), ","))
}

/// The 256-bit number with the bits of `heroes` set, as an expression of
/// the database.
pub open spec fn mask_sql(heroes: Seq<u8>) -> Seq<char> {
    "arraySum(arrayMap(h -> bitShiftLeft(toUInt256(1), h), ["@ + joined(heroes) + "]))"@
}

/// The condition that the column of `side` holds all of `heroes`.
pub open spec fn side_check_sql(side: Side, heroes: Seq<u8>) -> Seq<char> {
    "(bitAnd("@ + side.name_of() + ", "@ + mask_sql(heroes) + ") = "@ + mask_sql(heroes) + ")"@
}

/// The condition of a plan: with one team, the team on either side; with
/// two, one on each side, either way round.
pub open spec fn condition_sql(plan: QueryPlan) -> Seq<char> {
    let side = members(plan.side, 256);
    match plan.other {
        None => "("@ + side_check_sql(Side::Radiant, side) + " OR "@ + side_check_sql(Side::Dire, side)
            + ")"@,
        Some(other) => "(("@ + side_check_sql(Side::Radiant, side) + " AND "@ + side_check_sql(
            Side::Dire,
            members(other, 256),
        ) + ") OR ("@ + side_check_sql(Side::Radiant, members(other, 256)) + " AND "@
            + side_check_sql(Side::Dire, side) + "))"@,
    }
}

/// The statement that scans the table of the pivot of `plan` in `database`:
/// the rows that meet the condition, the highest match id first, cut to the
/// limit behind the offset.
pub open spec fn scan_sql(database: Seq<char>, plan: QueryPlan) -> Seq<char> {
    "SELECT ?fields FROM "@ + database + "."@ + table_name_of(plan.pivot) + " WHERE "@
        + condition_sql(plan) + " ORDER BY match_id DESC LIMIT "@ + decimal(plan.limit as nat)
        + " OFFSET "@ + decimal(plan.offset as nat)
}

/// The statement that counts the rows of the table of `hero` in `database`.
pub open spec fn count_sql(database: Seq<char>, hero: u8) -> Seq<char> {
    "SELECT count() FROM "@ + database + "."@ + table_name_of(hero)
}

/// The statement that creates `database` where it is missing.
pub open spec fn create_database_sql(database: Seq<char>) -> Seq<char> {
    "CREATE DATABASE IF NOT EXISTS "@ + database
}

/// The statement that creates the table of `hero` in `database` where it is
/// missing: a row is a match id and the two masks of the match, rows are
/// kept in the order of the match id and parted by its hundred millions.
pub open spec fn create_table_sql(database: Seq<char>, hero: u8) -> Seq<char> {
    "CREATE TABLE IF NOT EXISTS "@ + database + "."@ + table_name_of(hero)
        + " (match_id UInt64, radiant UInt256, dire UInt256) ENGINE = MergeTree() PARTITION BY intDiv(match_id, 100000000) ORDER BY match_id PRIMARY KEY match_id"@
}

fn side_check(side: Side, heroes: &[u8]) -> (text: String)
    ensures
        text@ == side_check_sql(side, heroes@),
{
    let number = String::from_str(
        "arraySum(arrayMap(h -> bitShiftLeft(toUInt256(1), h), [",
    ).concat(join_heroes(heroes).as_str()).concat("]))");
    String::from_str("(bitAnd(").concat(side.name()).concat(", ").concat(number.as_str()).concat(
        ") = ",
    ).concat(number.as_str()).concat(")")
}

/// The names of the database and of its tables, and the statements that
/// are sent to it.
pub struct Database {
    database: String,
}

impl View for Database {
    type V = Seq<char>;

    closed spec fn view(&self) -> Seq<char> {
        self.database@
    }
}

impl Database {
    /// The index in the database of this name.
    pub fn new(database: &str) -> (index: Database)
        ensures
            index@ == database@,
    {
        Database { database: String::from_str(database) }
    }

    /// The statement that creates the database where it is missing.
    pub fn create_database(&self) -> (sql: String)
        ensures
            sql@ == create_database_sql(self@),
    {
        String::from_str("CREATE DATABASE IF NOT EXISTS ").concat(self.database.as_str())
    }

    /// The statement that creates the table of `hero` where it is missing.
    pub fn create_table(&self, hero: u8) -> (sql: String)
        ensures
            sql@ == create_table_sql(self@, hero),
    {
        String::from_str("CREATE TABLE IF NOT EXISTS ").concat(self.database.as_str()).concat(
            ".",
        ).concat(table_name(hero).as_str()).concat(
            " (match_id UInt64, radiant UInt256, dire UInt256) ENGINE = MergeTree() PARTITION BY intDiv(match_id, 100000000) ORDER BY match_id PRIMARY KEY match_id",
        )
    }

    /// The statement that counts the rows of the table of `hero`, by which
    /// the planner picks its pivot.
    pub fn count(&self, hero: u8) -> (sql: String)
        ensures
            sql@ == count_sql(self@, hero),
    {
        String::from_str("SELECT count() FROM ").concat(self.database.as_str()).concat(".").concat(
            table_name(hero).as_str(),
        )
    }

    /// The statement that scans for the matches of a plan.
    pub fn query_matches(&self, plan: &QueryPlan) -> (sql: String)
        ensures
            sql@ == scan_sql(self@, *plan),
    {
        let side = plan.side.heroes();
        let condition = match &plan.other {
            None => String::from_str("(").concat(
                side_check(Side::Radiant, side.as_slice()).as_str(),
            ).concat(" OR ").concat(side_check(Side::Dire, side.as_slice()).as_str()).concat(")"),
            Some(other) => {
                let other = other.heroes();
                String::from_str("((").concat(
                    side_check(Side::Radiant, side.as_slice()).as_str(),
                ).concat(" AND ").concat(side_check(Side::Dire, other.as_slice()).as_str()).concat(
                    ") OR (",
                ).concat(side_check(Side::Radiant, other.as_slice()).as_str()).concat(" AND ").concat(
                    side_check(Side::Dire, side.as_slice()).as_str(),
                ).concat("))")
            },
        };
        assert(condition@ == condition_sql(*plan));
        String::from_str("SELECT ?fields FROM ").concat(self.database.as_str()).concat(".").concat(
            table_name(plan.pivot).as_str(),
        ).concat(" WHERE ").concat(condition.as_str()).concat(
            " ORDER BY match_id DESC LIMIT ",
        ).concat(decimal_text(plan.limit as u64).as_str()).concat(" OFFSET ").concat(
            decimal_text(plan.offset as u64).as_str(),
        )
    }
}

/// The drafts of the rows that a scan returned, in their order.
pub fn drafts_of(rows: &[MatchMask]) -> (drafts: Vec<MatchDraft>)
    ensures
        drafts@.len() == rows@.len(),
        forall|i: int|
            0 <= i < rows@.len() ==> {
                &&& (#[trigger] drafts@[i]).match_id == rows@[i].match_id
                &&& drafts@[i].radiant@ == crate::dota2::decoded_side(rows@[i].radiant@)
                &&& drafts@[i].dire@ == crate::dota2::decoded_side(rows@[i].dire@)
            },
{
    let mut drafts: Vec<MatchDraft> = Vec::new();
    let mut i: usize = 0;
    while i < rows.len()
        invariant
            i <= rows.len(),
            drafts@.len() == i,
            forall|k: int|
                0 <= k < i ==> {
                    &&& (#[trigger] drafts@[k]).match_id == rows@[k].match_id
                    &&& drafts@[k].radiant@ == crate::dota2::decoded_side(rows@[k].radiant@)
                    &&& drafts@[k].dire@ == crate::dota2::decoded_side(rows@[k].dire@)
                },
        decreases rows.len() - i,
    {
        drafts.push(rows[i].decode());
        i += 1;
    }
    drafts
}

} // verus!
