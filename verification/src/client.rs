//! What the upstream match-history service is asked and how its answers are
//! classified. Sending the request and decoding the body are left to the
//! caller; everything decided about them is decided here.

use crate::dota2::{full, partial};
use crate::text::{decimal, decimal_text};
use vstd::prelude::*;
use vstd::string::StringExecFns;

verus! {

/// Endpoint that pages through matches by sequence number.
pub const URL_GET_MATCH_HISTORY_BY_SEQUENCE_NUM: &'static str =
    "https://api.steampowered.com/IDOTA2Match_570/GetMatchHistoryBySequenceNum/v1";

/// Endpoint that lists recent matches.
pub const URL_GET_MATCH_HISTORY: &'static str =
    "https://api.steampowered.com/IDOTA2Match_570/GetMatchHistory/v1";

/// Status of an answer that carries a page.
pub const STATUS_OK: u16 = 200;

/// Status of an answer that asks the caller to slow down.
pub const STATUS_TOO_MANY_REQUESTS: u16 = 429;

/// Number of matches asked for in one page.
pub const PAGE_SIZE: u8 = 100;

/// Why a request gave no page.
#[derive(Clone, Debug)]
pub enum RequestError {
    /// The request did not get through, or timed out; holds the transport's
    /// message.
    ConnectionError(String),
    /// The answer was 200 but its body does not fit the schema; holds the
    /// decoder's message and the body.
    DecodeError(String, String),
    /// The answer was 429.
    TooManyRequests,
    /// The answer had another status than 200 and 429.
    OtherResponse(u16),
}

impl RequestError {
    /// Whether the request is worth sending again after a pause: only a
    /// transport failure is.
    pub fn is_transient(&self) -> (again: bool)
        ensures
            again == (self is ConnectionError),
    {
        match self {
            RequestError::ConnectionError(_) => true,
            _ => false,
        }
    }
}

/// The verdict on the status of an answer: 200 lets the body through, 429 is
/// a throttle, every other status is reported as it came.
pub fn check_status(status: u16) -> (verdict: Result<(), RequestError>)
    ensures
        status == 200 <==> verdict is Ok,
        status == 429 <==> verdict == Err::<(), RequestError>(RequestError::TooManyRequests),
        status != 200 && status != 429 ==> verdict == Err::<(), RequestError>(
            RequestError::OtherResponse(status),
        ),
{
    if status == STATUS_OK {
        Ok(())
    } else if status == STATUS_TOO_MANY_REQUESTS {
        Err(RequestError::TooManyRequests)
    } else {
        Err(RequestError::OtherResponse(status))
    }
}

/// The page of a decoded full-schema body, or the decode error with the body
/// that was refused.
pub fn full_page(
    decoded: Result<full::MatchHistoryResponse, String>,
    content: String,
) -> (page: Result<full::MatchHistory, RequestError>)
    ensures
        match decoded {
            Ok(response) => page == Ok::<full::MatchHistory, RequestError>(response.result),
            Err(message) => page == Err::<full::MatchHistory, RequestError>(
                RequestError::DecodeError(message, content),
            ),
        },
{
    match decoded {
        Ok(response) => Ok(response.result),
        Err(message) => Err(RequestError::DecodeError(message, content)),
    }
}

/// The page of a decoded partial-schema body, or the decode error with the
/// body that was refused.
pub fn partial_page(
    decoded: Result<partial::MatchHistoryResponse, String>,
    content: String,
) -> (page: Result<partial::MatchHistory, RequestError>)
    ensures
        match decoded {
            Ok(response) => page == Ok::<partial::MatchHistory, RequestError>(response.result),
            Err(message) => page == Err::<partial::MatchHistory, RequestError>(
                RequestError::DecodeError(message, content),
            ),
        },
{
    match decoded {
        Ok(response) => Ok(response.result),
        Err(message) => Err(RequestError::DecodeError(message, content)),
    }
}

/// The highest sequence number on the first `upto` matches, 0 where there is
/// none.
pub open spec fn highest_seq_num(matches: Seq<partial::Match>, upto: int) -> u64
    decreases upto,
{
    if upto <= 0 {
        0
    } else {
        let rest = highest_seq_num(matches, upto - 1);
        if matches[upto - 1].match_seq_num > rest {
            matches[upto - 1].match_seq_num
        } else {
            rest
        }
    }
}

/// A recent sequence number: the highest one on a page of recent matches.
pub fn recent_match_seq_num(history: &partial::MatchHistory) -> (seq_num: u64)
    ensures
        seq_num == highest_seq_num(history.matches@, history.matches@.len() as int),
        forall|i: int|
            0 <= i < history.matches@.len() ==> history.matches@[i].match_seq_num <= seq_num,
        seq_num == 0 || exists|i: int|
            0 <= i < history.matches@.len() && history.matches@[i].match_seq_num == seq_num,
{
    proof {
        lemma_highest_seq_num(history.matches@, history.matches@.len() as int);
    }
    let mut highest: u64 = 0;
    let mut i: usize = 0;
    while i < history.matches.len()
        invariant
            i <= history.matches.len(),
            highest == highest_seq_num(history.matches@, i as int),
        decreases history.matches.len() - i,
    {
        if history.matches[i].match_seq_num > highest {
            highest = history.matches[i].match_seq_num;
        }
        i += 1;
    }
    highest
}

/// The highest sequence number is on the page, unless it is 0, and no match
/// of the page has a higher one.
proof fn lemma_highest_seq_num(matches: Seq<partial::Match>, upto: int)
    requires
        0 <= upto <= matches.len(),
    ensures
        forall|i: int| 0 <= i < upto ==> matches[i].match_seq_num <= highest_seq_num(matches, upto),
        highest_seq_num(matches, upto) == 0 || exists|i: int|
            0 <= i < upto && matches[i].match_seq_num == highest_seq_num(matches, upto),
    decreases upto,
{
    if upto > 0 {
        lemma_highest_seq_num(matches, upto - 1);
        let rest = highest_seq_num(matches, upto - 1);
        if matches[upto - 1].match_seq_num > rest {
        } else if rest != 0 {
            let i = choose|i: int| 0 <= i < upto - 1 && matches[i].match_seq_num == rest;
            assert(0 <= i < upto && matches[i].match_seq_num == highest_seq_num(matches, upto));
        }
    }
}

/// One parameter of a request: its name and its value.
#[derive(Clone, Debug)]
pub struct QueryPair {
    pub name: String,
    pub value: String,
}

/// The parameters of the request for the page that starts at sequence
/// number `start`: the key, the start and the number of matches.
pub fn page_query(key: &str, start: u64, count: u8) -> (query: Vec<QueryPair>)
    ensures
        query@.len() == 3,
        query@[0].name@ == "key"@,
        query@[0].value@ == key@,
        query@[1].name@ == "start_at_match_seq_num"@,
        query@[1].value@ == decimal(start as nat),
        query@[2].name@ == "matches_requested"@,
        query@[2].value@ == decimal(count as nat),
{
    let mut query: Vec<QueryPair> = Vec::new();
    query.push(QueryPair { name: String::from_str("key"), value: String::from_str(key) });
    query.push(
        QueryPair { name: String::from_str("start_at_match_seq_num"), value: decimal_text(start) },
    );
    query.push(
        QueryPair {
            name: String::from_str("matches_requested"),
            value: decimal_text(count as u64),
        },
    );
    query
}

/// The parameters of the request for recent matches with ten players: the
/// key, the number of players and the number of matches.
pub fn recent_query(key: &str, count: u8) -> (query: Vec<QueryPair>)
    ensures
        query@.len() == 3,
        query@[0].name@ == "key"@,
        query@[0].value@ == key@,
        query@[1].name@ == "min_players"@,
        query@[1].value@ == decimal(10),
        query@[2].name@ == "matches_requested"@,
        query@[2].value@ == decimal(count as nat),
{
    let mut query: Vec<QueryPair> = Vec::new();
    query.push(QueryPair { name: String::from_str("key"), value: String::from_str(key) });
    query.push(QueryPair { name: String::from_str("min_players"), value: decimal_text(10) });
    query.push(
        QueryPair {
            name: String::from_str("matches_requested"),
            value: decimal_text(count as u64),
        },
    );
    query
}

} // verus!
