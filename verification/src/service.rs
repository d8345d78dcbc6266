//! The query service: what a request asks for, the plan that answers it, and
//! the answer that goes back.

use crate::database::{drafts_of, plan, QueryPlan};
use crate::dota2::{decoded_side, MatchDraft, MatchMask};
use vstd::prelude::*;

verus! {

/// A request: the heroes of two teams, either of which may be empty, the
/// number of matches wanted and the number of matches to pass over.
#[derive(Clone, Debug)]
pub struct QueryParameter {
    pub team1: Vec<u8>,
    pub team2: Vec<u8>,
    pub count: usize,
    pub offset: usize,
}

/// The number of matches that a request gets where it names none.
pub fn default_count() -> (count: usize)
    ensures
        count == 10,
{
    10
}

/// Each hero of a team with the number of rows of its table.
pub open spec fn with_counts(team: Seq<u8>, counts: Seq<u64>) -> Seq<(u8, u64)> {
    Seq::new(team.len(), |i: int| (team[i], counts[i]))
}

fn pair_up(team: &Vec<u8>, counts: &[u64]) -> (entries: Vec<(u8, u64)>)
    requires
        team@.len() == counts@.len(),
    ensures
        entries@ == with_counts(team@, counts@),
{
    let mut entries: Vec<(u8, u64)> = Vec::new();
    let mut i: usize = 0;
    while i < team.len()
        invariant
            i <= team.len(),
            team@.len() == counts@.len(),
            entries@.len() == i,
            forall|k: int| 0 <= k < i ==> entries@[k] == (team@[k], counts@[k]),
        decreases team.len() - i,
    {
        entries.push((team[i], counts[i]));
        i += 1;
    }
    assert(entries@ =~= with_counts(team@, counts@));
    entries
}

/// The plan that answers a request, where `counts1` and `counts2` hold the
/// number of rows in the table of each hero of the two teams, in the order
/// of the teams. There is none where the request names no hero, nor where a
/// count is missing: the request is then answered with no match.
pub fn find_matches(para: &QueryParameter, counts1: &[u64], counts2: &[u64]) -> (answer: Option<
    QueryPlan,
>)
    ensures
        answer is None <==> (para.team1@.len() == 0 && para.team2@.len() == 0) || para.team1@.len()
            != counts1@.len() || para.team2@.len() != counts2@.len(),
        answer matches Some(plan) ==> crate::database::planned(
            with_counts(para.team1@, counts1@),
            with_counts(para.team2@, counts2@),
            para.count,
            para.offset,
            plan,
        ),
{
    if para.team1.len() != counts1.len() || para.team2.len() != counts2.len() {
        return None;
    }
    let team1 = pair_up(&para.team1, counts1);
    let team2 = pair_up(&para.team2, counts2);
    plan(team1.as_slice(), team2.as_slice(), para.count, para.offset)
}

/// The answer to a request: the drafts of the rows that the scan returned,
/// and no match at all where the scan failed or there was no plan.
pub fn respond(rows: Option<Vec<MatchMask>>) -> (drafts: Vec<MatchDraft>)
    ensures
        match rows {
            None => drafts@.len() == 0,
            Some(rows) => {
                &&& drafts@.len() == rows@.len()
                &&& forall|i: int|
                    0 <= i < rows@.len() ==> {
                        &&& (#[trigger] drafts@[i]).match_id == rows@[i].match_id
                        &&& drafts@[i].radiant@ == decoded_side(rows@[i].radiant@)
                        &&& drafts@[i].dire@ == decoded_side(rows@[i].dire@)
                    }
            },
        },
{
    match rows {
        None => Vec::new(),
        Some(rows) => drafts_of(rows.as_slice()),
    }
}

} // verus!
