use kez::client::RequestError;
use kez::dota2::full;
use kez::dota2::MatchMask;
use kez::rate::RateControl;
use kez::scheduler::{Action, CollectorState, Directive, Scheduler};

const MILLI: u128 = 1_000_000;
const SECOND: u128 = 1_000_000_000;

fn game(seq: u64) -> full::Match {
    full::Match {
        match_id: seq + 9_000_000,
        match_seq_num: seq,
        players: vec![
            full::Player { player_slot: 1, hero_id: 11, ..Default::default() },
            full::Player { player_slot: 129, hero_id: 12, ..Default::default() },
        ],
        ..Default::default()
    }
}

fn page(seqs: std::ops::Range<u64>) -> Result<full::MatchHistory, RequestError> {
    Ok(full::MatchHistory { status: 1, matches: seqs.map(game).collect() })
}

fn scheduler(collected: Vec<(u64, u64)>, batch: usize) -> Scheduler {
    Scheduler::new(CollectorState::new(collected), batch, RateControl::new(1_000, 60_000, 0))
}

fn fetch(scheduler: &mut Scheduler, now: u128) -> u64 {
    match scheduler.next(now) {
        Action::Fetch(start) => start,
        other => panic!("expected a page to fetch, got {:?}", other),
    }
}

#[test]
fn onward_collector_has_the_first_turn() {
    let mut scheduler = scheduler(vec![(100_500, 100_700)], 500);
    assert_eq!(scheduler.waiting(), 2);
    assert_eq!(fetch(&mut scheduler, 10 * SECOND), 100_700);
    assert_eq!(scheduler.waiting(), 1);
    assert!(scheduler.is_fetching());
}

#[test]
fn no_collector_of_the_past_where_the_past_is_collected() {
    let scheduler = scheduler(vec![(0, 700)], 500);
    assert_eq!(scheduler.waiting(), 1);
}

#[test]
fn next_waits_for_the_deadline() {
    let mut scheduler = scheduler(vec![(100_500, 100_700)], 500);
    assert!(matches!(scheduler.next(500 * MILLI), Action::Wait(pause) if pause == 1_500 * MILLI));
    assert!(!scheduler.is_fetching());
    assert!(matches!(scheduler.next(1_999 * MILLI), Action::Wait(pause) if pause == MILLI));
    assert_eq!(fetch(&mut scheduler, 2_000 * MILLI), 100_700);
    assert_eq!(scheduler.rate().last_timestamp(), 2_000 * MILLI);
}

#[test]
fn yield_turns_to_the_next_collector() {
    let mut scheduler = scheduler(vec![(100_500, 100_700)], 500);
    assert_eq!(fetch(&mut scheduler, 10 * SECOND), 100_700);
    let directive = scheduler.step(page(100_700..100_750)).expect("a page is no failure");
    assert!(matches!(directive, Directive::Continue));
    assert_eq!(scheduler.waiting(), 2);
    assert_eq!(fetch(&mut scheduler, 20 * SECOND), 100_000);
    let directive = scheduler.step(page(100_000..100_100)).expect("a page is no failure");
    assert!(matches!(directive, Directive::Continue));
    assert_eq!(scheduler.waiting(), 1);
    assert_eq!(fetch(&mut scheduler, 30 * SECOND), 100_100);
}

#[test]
fn quota_of_the_past_is_four_steps() {
    let mut scheduler = scheduler(vec![(100_500, 100_700)], 500);
    assert_eq!(fetch(&mut scheduler, 10 * SECOND), 100_700);
    scheduler.step(page(100_700..100_750)).expect("a page is no failure");
    let mut now = 20 * SECOND;
    for k in 0..4u64 {
        assert_eq!(fetch(&mut scheduler, now), 100_000);
        assert_eq!(scheduler.waiting(), 1);
        let directive = scheduler
            .step(Err(RequestError::ConnectionError("reset".to_string())))
            .expect("a transport failure is no failure of the step");
        assert!(matches!(directive, Directive::Continue));
        assert_eq!(scheduler.waiting(), if k < 3 { 1 } else { 2 });
        now += 10 * SECOND;
    }
    assert_eq!(fetch(&mut scheduler, now), 100_750);
    assert_eq!(scheduler.waiting(), 1);
}

#[test]
fn quota_of_the_onward_collector_is_sixteen_steps() {
    let mut scheduler = scheduler(vec![(100_500, 100_700)], 1_000_000);
    let mut now = 10 * SECOND;
    for k in 0..16u64 {
        assert_eq!(fetch(&mut scheduler, now), 100_700 + 100 * k);
        assert_eq!(scheduler.waiting(), 1);
        let start = 100_700 + 100 * k;
        scheduler.step(page(start..start + 100)).expect("a page is no failure");
        now += 10 * SECOND;
    }
    assert_eq!(scheduler.waiting(), 2);
    assert_eq!(fetch(&mut scheduler, now), 100_000);
}

#[test]
fn save_is_recorded_when_it_is_persisted() {
    let mut scheduler = scheduler(vec![(100_500, 100_700)], 100);
    assert_eq!(fetch(&mut scheduler, 10 * SECOND), 100_700);
    let directive = scheduler.step(page(100_700..100_800)).expect("a page is no failure");
    match directive {
        Directive::Persist(range, masks) => {
            assert_eq!(range, 100_700..100_800);
            assert_eq!(masks.len(), 100);
            assert_eq!(masks[0], MatchMask::encode(&game(100_700)));
            assert_eq!(masks[99], MatchMask::encode(&game(100_799)));
        },
        other => panic!("expected masks to persist, got {:?}", other),
    }
    assert!(scheduler.is_awaiting());
    assert_eq!(scheduler.state().collected(), &vec![(100_500, 100_700)]);
    scheduler.persisted();
    assert!(!scheduler.is_awaiting());
    assert_eq!(scheduler.state().collected(), &vec![(100_500, 100_800)]);
    assert_eq!(scheduler.waiting(), 1);
    assert_eq!(fetch(&mut scheduler, 20 * SECOND), 100_800);
}

#[test]
fn completed_range_is_followed_by_the_next_range_of_the_past() {
    let mut scheduler = scheduler(vec![(100_050, 100_700)], 100);
    assert_eq!(fetch(&mut scheduler, 10 * SECOND), 100_700);
    scheduler.step(page(100_700..100_750)).expect("a page is no failure");
    assert_eq!(fetch(&mut scheduler, 20 * SECOND), 100_000);
    let directive = scheduler.step(page(100_000..100_100)).expect("a page is no failure");
    match directive {
        Directive::Persist(range, masks) => {
            assert_eq!(range, 100_000..100_100);
            assert_eq!(masks.len(), 50);
            assert_eq!(masks[49], MatchMask::encode(&game(100_049)));
        },
        other => panic!("expected masks to persist, got {:?}", other),
    }
    assert_eq!(scheduler.waiting(), 1);
    scheduler.persisted();
    assert_eq!(scheduler.state().collected(), &vec![(100_000, 100_700)]);
    assert_eq!(scheduler.waiting(), 2);
    assert_eq!(fetch(&mut scheduler, 30 * SECOND), 100_750);
    scheduler.step(page(100_750..100_760)).expect("a page is no failure");
    assert_eq!(fetch(&mut scheduler, 40 * SECOND), 0);
}

#[test]
fn nothing_follows_where_no_past_is_left() {
    let mut scheduler = scheduler(vec![(50, 700)], 100);
    assert_eq!(fetch(&mut scheduler, 10 * SECOND), 700);
    scheduler.step(page(700..750)).expect("a page is no failure");
    assert_eq!(fetch(&mut scheduler, 20 * SECOND), 0);
    let directive = scheduler.step(page(0..100)).expect("a page is no failure");
    assert!(matches!(directive, Directive::Persist(_, _)));
    scheduler.persisted();
    assert_eq!(scheduler.state().collected(), &vec![(0, 700)]);
    assert_eq!(scheduler.waiting(), 1);
    assert_eq!(fetch(&mut scheduler, 30 * SECOND), 750);
}

#[test]
fn throttle_stretches_the_interval_and_puts_the_request_off() {
    let mut scheduler = scheduler(vec![(100_500, 100_700)], 100);
    let instants = [10 * SECOND, 20 * SECOND, 30 * SECOND];
    let intervals = [2_666_666_666u128, 3_555_555_554, 4_740_740_738];
    for (now, interval) in instants.iter().zip(intervals.iter()) {
        assert_eq!(fetch(&mut scheduler, *now), 100_700);
        let directive = scheduler
            .step(Err(RequestError::TooManyRequests))
            .expect("a throttle is no failure of the step");
        assert!(matches!(directive, Directive::Continue));
        assert_eq!(scheduler.rate().interval(), *interval);
        assert_eq!(scheduler.rate().last_timestamp(), *now + 2 * SECOND);
    }
    assert_eq!(scheduler.waiting(), 1);
    assert!(matches!(
        scheduler.next(32 * SECOND),
        Action::Wait(pause) if pause == 4_740_740_738
    ));
    assert_eq!(fetch(&mut scheduler, 40 * SECOND), 100_700);
    let directive = scheduler.step(page(100_700..100_800)).expect("a page is no failure");
    match directive {
        Directive::Persist(range, masks) => {
            assert_eq!(range, 100_700..100_800);
            assert_eq!(masks.len(), 100);
        },
        other => panic!("expected masks to persist, got {:?}", other),
    }
    assert_eq!(scheduler.rate().interval(), 4_740_740_738);
}

#[test]
fn decode_failure_is_fatal_and_names_the_file() {
    let mut scheduler = scheduler(vec![(100_500, 100_700)], 100);
    assert_eq!(fetch(&mut scheduler, 10 * SECOND), 100_700);
    let failure = scheduler
        .step(Err(RequestError::DecodeError("bad".to_string(), "<html>".to_string())))
        .expect_err("a body that cannot be decoded is fatal");
    assert_eq!(failure.file, "100700-error.json");
    assert_eq!(failure.content, "<html>");
    assert_eq!(failure.message, "bad");
    assert!(!scheduler.is_fetching());
    assert_eq!(scheduler.waiting(), 1);
}

#[test]
fn range_that_was_not_recorded_is_fetched_again() {
    let saved = vec![(100_500, 100_700)];
    let mut first = scheduler(saved.clone(), 100);
    assert_eq!(fetch(&mut first, 10 * SECOND), 100_700);
    let directive = first.step(page(100_700..100_800)).expect("a page is no failure");
    let lost = match directive {
        Directive::Persist(range, masks) => (range, masks),
        other => panic!("expected masks to persist, got {:?}", other),
    };
    assert_eq!(first.state().collected(), &saved);
    let mut second = scheduler(saved.clone(), 100);
    assert_eq!(fetch(&mut second, 10 * SECOND), 100_700);
    let directive = second.step(page(100_700..100_800)).expect("a page is no failure");
    match directive {
        Directive::Persist(range, masks) => {
            assert_eq!(range, lost.0);
            assert_eq!(masks, lost.1);
        },
        other => panic!("expected masks to persist, got {:?}", other),
    }
    second.persisted();
    assert_eq!(second.state().collected(), &vec![(100_500, 100_800)]);
}

#[test]
fn restart_begins_where_the_lost_range_began() {
    let mut first = scheduler(vec![(100_050, 100_700)], 100);
    let mut now = 10 * SECOND;
    assert_eq!(fetch(&mut first, now), 100_700);
    assert!(matches!(
        first.step(page(100_700..100_800)).expect("a page is no failure"),
        Directive::Persist(_, _)
    ));
    first.persisted();
    now += 10 * SECOND;
    assert_eq!(fetch(&mut first, now), 100_800);
    first.step(page(100_800..100_850)).expect("a page is no failure");
    now += 10 * SECOND;
    assert_eq!(fetch(&mut first, now), 100_000);
    let lost = match first.step(page(100_000..100_100)).expect("a page is no failure") {
        Directive::Persist(range, masks) => (range, masks),
        other => panic!("expected masks to persist, got {:?}", other),
    };
    assert_eq!(lost.0, 100_000..100_100);
    let written = first.state().collected().clone();
    assert_eq!(written, vec![(100_050, 100_800)]);

    let mut second = scheduler(written, 100);
    assert_eq!(fetch(&mut second, 10 * SECOND), 100_800);
    second.step(page(100_800..100_850)).expect("a page is no failure");
    assert_eq!(fetch(&mut second, 20 * SECOND), lost.0.start);
    match second.step(page(100_000..100_100)).expect("a page is no failure") {
        Directive::Persist(range, masks) => {
            assert_eq!(range, lost.0);
            assert_eq!(masks, lost.1);
        },
        other => panic!("expected masks to persist, got {:?}", other),
    }
    second.persisted();
    assert_eq!(second.state().collected(), &vec![(100_000, 100_800)]);
}
