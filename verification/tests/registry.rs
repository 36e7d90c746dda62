use pallet_template::Error;
use pallet_template::Pallet;

const ALICE: u64 = 1;
const BOB: u64 = 2;
const CAROL: u64 = 3;
const DAVE: u64 = 4;

#[test]
fn register_game_claims_and_rejects_second_claim() {
    let mut p = Pallet::new();
    assert_eq!(p.register_game(ALICE, 7), Ok(()));
    assert_eq!(p.authorities_map(ALICE), vec![7]);
    assert_eq!(p.register_game(BOB, 7), Err(Error::AlreadyRegisteredGame));
    assert!(p.authorities_map(BOB).is_empty());
}

#[test]
fn register_game_emits_no_event() {
    let mut p = Pallet::new();
    p.register_game(ALICE, 7).unwrap();
    assert!(p.events.is_empty());
}

#[test]
fn register_game_replaces_prior_set() {
    let mut p = Pallet::new();
    p.register_game(ALICE, 1).unwrap();
    assert_eq!(p.register_game(ALICE, 2), Ok(()));
    assert_eq!(p.authorities_map(ALICE), vec![2]);
}

#[test]
fn add_authority_grants_and_rejects_duplicate_holder() {
    let mut p = Pallet::new();
    p.register_game(ALICE, 7).unwrap();
    assert_eq!(p.add_authority(ALICE, 7, BOB), Ok(()));
    assert_eq!(p.authorities_map(BOB), vec![7]);
    assert_eq!(p.add_authority(BOB, 7, ALICE), Err(Error::InvalidAuthority));
    assert!(p.events.is_empty());
}

#[test]
fn add_authority_merges_into_prior_set() {
    let mut p = Pallet::new();
    p.register_game(ALICE, 1).unwrap();
    p.register_game(BOB, 2).unwrap();
    assert_eq!(p.add_authority(BOB, 2, ALICE), Ok(()));
    let mut games = p.authorities_map(ALICE);
    games.sort();
    assert_eq!(games, vec![1, 2]);
}

#[test]
fn add_authority_requires_actor_to_hold_game() {
    let mut p = Pallet::new();
    p.register_game(ALICE, 7).unwrap();
    assert_eq!(
        p.add_authority(ALICE, 8, BOB),
        Err(Error::InvalidAuthority)
    );
    assert!(p.authorities_map(BOB).is_empty());
}

#[test]
fn add_authority_without_record_fails() {
    let mut p = Pallet::new();
    assert_eq!(
        p.add_authority(CAROL, 9, DAVE),
        Err(Error::InvalidAuthority)
    );
    assert!(p.authorities_map(DAVE).is_empty());
}

#[test]
fn add_authority_rejects_repeated_grant() {
    let mut p = Pallet::new();
    p.register_game(ALICE, 7).unwrap();
    p.add_authority(ALICE, 7, BOB).unwrap();
    assert_eq!(p.add_authority(ALICE, 7, BOB), Err(Error::InvalidAuthority));
    assert_eq!(p.authorities_map(BOB), vec![7]);
}

#[test]
fn no_game_is_ever_claimed_twice() {
    let mut p = Pallet::new();
    let mut winners = 0;
    for actor in 1..=10u64 {
        if p.register_game(actor, 99).is_ok() {
            winners += 1;
        }
    }
    assert_eq!(winners, 1);
    let holders = (1..=10u64)
        .filter(|a| p.authorities_map(*a).contains(&99))
        .count();
    assert_eq!(holders, 1);
}

#[test]
fn authorities_map_of_unknown_account_is_empty() {
    let p = Pallet::new();
    assert!(p.authorities_map(DAVE).is_empty());
}
