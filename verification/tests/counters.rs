use pallet_template::Error;
use pallet_template::Event;
use pallet_template::Pallet;

const ALICE: u64 = 1;
const BOB: u64 = 2;

#[test]
fn do_something_stores_value_and_emits_event() {
    let mut p = Pallet::new();
    assert_eq!(p.something(), None);
    let r = p.do_something(ALICE, 42);
    assert_eq!(r, Ok(()));
    assert_eq!(p.something(), Some(42));
    assert_eq!(p.events, vec![Event::SomethingStored(42, ALICE)]);
}

#[test]
fn do_something_overwrites_unconditionally() {
    let mut p = Pallet::new();
    p.do_something(ALICE, 42).unwrap();
    let r = p.do_something(BOB, 5);
    assert_eq!(r, Ok(()));
    assert_eq!(p.something(), Some(5));
    assert_eq!(
        p.events,
        vec![
            Event::SomethingStored(42, ALICE),
            Event::SomethingStored(5, BOB)
        ]
    );
}

#[test]
fn cause_error_fails_when_counter_unset() {
    let mut p = Pallet::new();
    let r = p.cause_error(ALICE);
    assert_eq!(r, Err(Error::NoneValue));
    assert_eq!(p.something(), None);
    assert!(p.events.is_empty());
}

#[test]
fn cause_error_bumps_by_exactly_one() {
    let mut p = Pallet::new();
    p.do_something(ALICE, 10).unwrap();
    let r = p.cause_error(BOB);
    assert_eq!(r, Ok(11));
    assert_eq!(p.something(), Some(11));
    assert_eq!(p.events.last(), Some(&Event::SomethingStored(11, BOB)));
}

#[test]
fn cause_error_overflow_keeps_stored_value() {
    let mut p = Pallet::new();
    p.do_something(ALICE, u32::MAX).unwrap();
    let events_before = p.events.clone();
    let r = p.cause_error(ALICE);
    assert_eq!(r, Err(Error::StorageOverflow));
    assert_eq!(p.something(), Some(u32::MAX));
    assert_eq!(p.events, events_before);
}

#[test]
fn increment_score_returns_one_two_three() {
    let mut p = Pallet::new();
    assert_eq!(p.score(), None);
    assert_eq!(p.increment_score(ALICE), Ok(1));
    assert_eq!(p.increment_score(ALICE), Ok(2));
    assert_eq!(p.increment_score(ALICE), Ok(3));
    assert_eq!(p.score(), Some(3));
    assert_eq!(
        p.events,
        vec![
            Event::LevelUp(1, ALICE),
            Event::LevelUp(2, ALICE),
            Event::LevelUp(3, ALICE)
        ]
    );
}

#[test]
fn increment_score_overflow_keeps_stored_value() {
    let mut p = Pallet {
        something: None,
        score: Some(u32::MAX),
        authorities: Vec::new(),
        events: Vec::new(),
    };
    let r = p.increment_score(ALICE);
    assert_eq!(r, Err(Error::StorageOverflow));
    assert_eq!(p.score(), Some(u32::MAX));
    assert!(p.events.is_empty());
}

#[test]
fn successful_bumps_increase_strictly_by_one() {
    let mut p = Pallet::new();
    let mut previous: Option<u32> = None;
    for _ in 0..5 {
        let v = p.increment_score(BOB).unwrap();
        if let Some(u) = previous {
            assert_eq!(v, u + 1);
        } else {
            assert_eq!(v, 1);
        }
        previous = Some(v);
    }
}
