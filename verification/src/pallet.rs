//! The store and its five operations.

use vstd::prelude::*;

verus! {

/// Identity of an authenticated caller. Authentication happens before this
/// core is invoked; every operation trusts the identity it is handed.
pub type AccountId = u64;

/// Opaque, comparable identifier for a claimable game resource.
pub type GameID = u64;

/// Every way an operation can fail. Failures are returned synchronously and
/// leave the store untouched.
#[derive(PartialEq, Eq, Structural, Clone, Copy, Debug)]
pub enum Error {
    /// A counter-dependent read required a prior write that never happened.
    NoneValue,
    /// A checked increment would exceed the counter's numeric range.
    StorageOverflow,
    /// `register_game` was called for a game some account already holds.
    AlreadyRegisteredGame,
    /// Reserved for future duplicate-authority detection; no path raises it.
    AlreadyRegisteredAuthority,
    /// The actor lacks authority over the game, or the target already holds it.
    InvalidAuthority,
}

/// Record appended to the event log on a successful counter mutation.
#[derive(PartialEq, Eq, Structural, Clone, Copy, Debug)]
pub enum Event {
    /// The `something` counter was written; carries the new value and the actor.
    SomethingStored(u32, AccountId),
    /// The `score` counter was bumped; carries the new value and the actor.
    LevelUp(u32, AccountId),
}

/// One account together with the games it is authorized to administer.
pub struct AuthorityRecord {
    pub account: AccountId,
    pub games: Vec<GameID>,
}

/// The whole store: two optional counters, the authority registry, and the
/// append-only event log. An account without a record is equivalent to one
/// with an empty game set.
pub struct Pallet {
    pub something: Option<u32>,
    pub score: Option<u32>,
    pub authorities: Vec<AuthorityRecord>,
    pub events: Vec<Event>,
}

/// Whether some record in `recs` belongs to `a`.
pub open spec fn has_record(recs: Seq<AuthorityRecord>, a: AccountId) -> bool {
    exists|i: int| 0 <= i < recs.len() && recs[i].account == a
}

/// The set of games `a` holds in `recs`; empty when `a` has no record.
pub open spec fn games_in(recs: Seq<AuthorityRecord>, a: AccountId) -> Set<GameID> {
    if has_record(recs, a) {
        let i = choose|i: int| 0 <= i < recs.len() && recs[i].account == a;
        recs[i].games@.to_set()
    } else {
        Set::<GameID>::empty()
    }
}

/// No two records belong to the same account.
pub open spec fn unique_accounts(recs: Seq<AuthorityRecord>) -> bool {
    forall|i: int, j: int|
        0 <= i < j < recs.len() ==> recs[i].account != recs[j].account
}

/// A recorded account's games are exactly its record's games.
proof fn lemma_games_of_record(recs: Seq<AuthorityRecord>, i: int)
    requires
        unique_accounts(recs),
        0 <= i < recs.len(),
    ensures
        games_in(recs, recs[i].account) == recs[i].games@.to_set(),
{
    let a = recs[i].account;
    assert(has_record(recs, a));
    let j = choose|j: int| 0 <= j < recs.len() && recs[j].account == a;
    assert(j == i);
}

/// A game is held by some account exactly when it occurs in some record.
proof fn lemma_game_in_some_record(recs: Seq<AuthorityRecord>, g: GameID)
    requires
        unique_accounts(recs),
    ensures
        (exists|a: AccountId| games_in(recs, a).contains(g)) <==> (exists|i: int|
            0 <= i < recs.len() && #[trigger] recs[i].games@.contains(g)),
{
    if exists|a: AccountId| games_in(recs, a).contains(g) {
        let a = choose|a: AccountId| games_in(recs, a).contains(g);
        assert(has_record(recs, a));
        let i = choose|i: int| 0 <= i < recs.len() && recs[i].account == a;
        lemma_games_of_record(recs, i);
        assert(recs[i].games@.to_set().contains(g));
        assert(recs[i].games@.contains(g));
    }
    if exists|i: int| 0 <= i < recs.len() && #[trigger] recs[i].games@.contains(g) {
        let i = choose|i: int| 0 <= i < recs.len() && #[trigger] recs[i].games@.contains(g);
        lemma_games_of_record(recs, i);
        assert(games_in(recs, recs[i].account).contains(g));
    }
}

/// Replacing record `i` by one for the same account changes that account's
/// games to the new record's games and no other account's games.
proof fn lemma_games_in_update(recs: Seq<AuthorityRecord>, i: int, r: AuthorityRecord)
    requires
        unique_accounts(recs),
        0 <= i < recs.len(),
        r.account == recs[i].account,
    ensures
        unique_accounts(recs.update(i, r)),
        games_in(recs.update(i, r), r.account) == r.games@.to_set(),
        forall|a: AccountId|
            a != r.account ==> games_in(recs.update(i, r), a) == games_in(recs, a),
{
    let s2 = recs.update(i, r);
    assert(forall|k: int| 0 <= k < s2.len() ==> s2[k].account == recs[k].account);
    lemma_games_of_record(s2, i);
    assert forall|a: AccountId| a != r.account implies games_in(s2, a) == games_in(
        recs,
        a,
    ) by {
        if has_record(recs, a) {
            let j = choose|j: int| 0 <= j < recs.len() && recs[j].account == a;
            assert(j != i);
            assert(s2[j] == recs[j]);
            lemma_games_of_record(recs, j);
            lemma_games_of_record(s2, j);
        } else {
            assert(!has_record(s2, a));
        }
    }
}

/// Appending a record for an account with no prior record gives that account
/// the record's games and changes no other account's games.
proof fn lemma_games_in_push(recs: Seq<AuthorityRecord>, r: AuthorityRecord)
    requires
        unique_accounts(recs),
        !has_record(recs, r.account),
    ensures
        unique_accounts(recs.push(r)),
        games_in(recs.push(r), r.account) == r.games@.to_set(),
        forall|a: AccountId| a != r.account ==> games_in(recs.push(r), a) == games_in(recs, a),
{
    let s2 = recs.push(r);
    let n = recs.len() as int;
    assert(forall|k: int| 0 <= k < n ==> s2[k] == recs[k]);
    assert(s2[n] == r);
    assert forall|i: int, j: int| 0 <= i < j < s2.len() implies s2[i].account != s2[j].account by {
        if j == n {
            if s2[i].account == r.account {
                assert(has_record(recs, r.account));
            }
        }
    }
    lemma_games_of_record(s2, n);
    assert forall|a: AccountId| a != r.account implies games_in(s2, a) == games_in(
        recs,
        a,
    ) by {
        if has_record(recs, a) {
            let j = choose|j: int| 0 <= j < recs.len() && recs[j].account == a;
            lemma_games_of_record(recs, j);
            lemma_games_of_record(s2, j);
        } else {
            assert(!has_record(s2, a));
        }
    }
}

/// A one-element sequence has no duplicates and its set is the singleton.
proof fn lemma_singleton_game_set(s: Seq<GameID>, g: GameID)
    requires
        s.len() == 1,
        s[0] == g,
    ensures
        s.to_set() == Set::<GameID>::empty().insert(g),
        s.no_duplicates(),
{
    assert(s.contains(g));
    assert forall|x: GameID| s.to_set().contains(x) implies Set::<GameID>::empty().insert(
        g,
    ).contains(x) by {
        let i = choose|i: int| 0 <= i < s.len() && s[i] == x;
        assert(i == 0);
    }
    assert(s.to_set() =~= Set::<GameID>::empty().insert(g));
}

/// Whether `g` occurs in `games`, by linear scan.
fn contains_game(games: &Vec<GameID>, g: GameID) -> (r: bool)
    ensures
        r == games@.contains(g),
{
    let mut k: usize = 0;
    while k < games.len()
        invariant
            k <= games@.len(),
            forall|j: int| 0 <= j < k ==> games@[j] != g,
        decreases games@.len() - k,
    {
        if games[k] == g {
            return true;
        }
        k += 1;
    }
    false
}

/// The index of `a`'s record, if it has one.
fn find_account(recs: &Vec<AuthorityRecord>, a: AccountId) -> (r: Option<usize>)
    ensures
        match r {
            Some(i) => i < recs@.len() && recs@[i as int].account == a,
            None => !has_record(recs@, a),
        },
{
    let mut k: usize = 0;
    while k < recs.len()
        invariant
            k <= recs@.len(),
            forall|j: int| 0 <= j < k ==> recs@[j].account != a,
        decreases recs@.len() - k,
    {
        if recs[k].account == a {
            return Some(k);
        }
        k += 1;
    }
    None
}

impl Pallet {
    /// The games `a` may administer in this store.
    pub open spec fn games_of(self, a: AccountId) -> Set<GameID> {
        games_in(self.authorities@, a)
    }

    /// Whether some account holds `g`.
    pub open spec fn claimed(self, g: GameID) -> bool {
        exists|a: AccountId| self.games_of(a).contains(g)
    }

    /// Registry well-formedness: one record per account, no duplicate game
    /// inside a record.
    pub open spec fn wf(self) -> bool {
        &&& unique_accounts(self.authorities@)
        &&& forall|i: int|
            0 <= i < self.authorities@.len() ==> (#[trigger] self.authorities@[i]).games@.no_duplicates()
    }

    /// At most one account holds any given game.
    pub open spec fn unique_claims(self) -> bool {
        forall|a1: AccountId, a2: AccountId, g: GameID|
            self.games_of(a1).contains(g) && self.games_of(a2).contains(g) ==> a1 == a2
    }

    /// An empty store: both counters unset, no authority records, no events.
    pub fn new() -> (p: Pallet)
        ensures
            p.wf(),
            p.something is None,
            p.score is None,
            p.authorities@.len() == 0,
            p.events@.len() == 0,
            forall|a: AccountId| p.games_of(a) == Set::<GameID>::empty(),
            p.unique_claims(),
    {
        Pallet {
            something: None,
            score: None,
            authorities: Vec::new(),
            events: Vec::new(),
        }
    }

    /// Unconditionally overwrite the `something` counter with `value` and
    /// emit one `SomethingStored` event. Never fails.
    pub fn do_something(&mut self, who: AccountId, value: u32) -> (r: Result<(), Error>)
        requires
            old(self).wf(),
        ensures
            final(self).wf(),
            r == Ok::<(), Error>(()),
            final(self).something == Some(value),
            final(self).score == old(self).score,
            final(self).authorities == old(self).authorities,
            final(self).events@ == old(self).events@.push(Event::SomethingStored(value, who)),
    {
        self.something = Some(value);
        self.events.push(Event::SomethingStored(value, who));
        Ok(())
    }

    /// Bump the `something` counter by exactly one. Fails with `NoneValue`
    /// when the counter was never written, and with `StorageOverflow` at the
    /// top of the range; on failure nothing changes and no event is emitted.
    /// On success returns the new value and emits one `SomethingStored` event.
    pub fn cause_error(&mut self, who: AccountId) -> (r: Result<u32, Error>)
        requires
            old(self).wf(),
        ensures
            final(self).wf(),
            final(self).score == old(self).score,
            final(self).authorities == old(self).authorities,
            match old(self).something {
                None => r == Err::<u32, Error>(Error::NoneValue) && *final(self) == *old(self),
                Some(v) => if v == u32::MAX {
                    r == Err::<u32, Error>(Error::StorageOverflow) && *final(self) == *old(self)
                } else {
                    &&& r == Ok::<u32, Error>((v + 1) as u32)
                    &&& final(self).something == Some((v + 1) as u32)
                    &&& final(self).events@ == old(self).events@.push(
                        Event::SomethingStored((v + 1) as u32, who),
                    )
                },
            },
    {
        match self.something {
            None => Err(Error::NoneValue),
            Some(old_value) => {
                if old_value == u32::MAX {
                    Err(Error::StorageOverflow)
                } else {
                    let new_value = old_value + 1;
                    self.something = Some(new_value);
                    self.events.push(Event::SomethingStored(new_value, who));
                    Ok(new_value)
                }
            },
        }
    }

    /// What a successful score bump returns, given the score before the call:
    /// one more than the stored value, starting from one when unset.
    pub open spec fn score_after_bump(before: Option<u32>, v: u32) -> bool {
        match before {
            None => v == 1,
            Some(u) => u < u32::MAX && v == u + 1,
        }
    }

    /// Bump the `score` counter by exactly one, treating an unset counter as
    /// zero. Fails with `StorageOverflow` at the top of the range, leaving
    /// the stored value in place; on success returns the new value and emits
    /// one `LevelUp` event.
    pub fn increment_score(&mut self, who: AccountId) -> (r: Result<u32, Error>)
        requires
            old(self).wf(),
        ensures
            final(self).wf(),
            final(self).something == old(self).something,
            final(self).authorities == old(self).authorities,
            match old(self).score {
                Some(v) if v == u32::MAX => {
                    r == Err::<u32, Error>(Error::StorageOverflow) && *final(self) == *old(self)
                },
                _ => {
                    &&& r matches Ok(v) && Self::score_after_bump(old(self).score, v)
                    &&& final(self).score == Some(r->Ok_0)
                    &&& final(self).events@ == old(self).events@.push(
                        Event::LevelUp(r->Ok_0, who),
                    )
                },
            },
    {
        let new_score: u32 = match self.score {
            None => 1,
            Some(old_value) => {
                if old_value == u32::MAX {
                    return Err(Error::StorageOverflow);
                }
                old_value + 1
            },
        };
        self.score = Some(new_score);
        self.events.push(Event::LevelUp(new_score, who));
        Ok(new_score)
    }

    /// Claim `game` for `who`. Fails with `AlreadyRegisteredGame` when any
    /// account already holds `game`, leaving the store unchanged; otherwise
    /// `who`'s authority set becomes exactly `{game}`, replacing whatever it
    /// held before. No event is emitted. A store in which every game has at
    /// most one holder stays that way.
    pub fn register_game(&mut self, who: AccountId, game: GameID) -> (r: Result<(), Error>)
        requires
            old(self).wf(),
        ensures
            final(self).wf(),
            final(self).something == old(self).something,
            final(self).score == old(self).score,
            final(self).events == old(self).events,
            old(self).claimed(game) ==> r == Err::<(), Error>(Error::AlreadyRegisteredGame)
                && *final(self) == *old(self),
            !old(self).claimed(game) ==> {
                &&& r == Ok::<(), Error>(())
                &&& final(self).games_of(who) == Set::<GameID>::empty().insert(game)
                &&& forall|a: AccountId|
                    a != who ==> final(self).games_of(a) == old(self).games_of(a)
            },
            old(self).unique_claims() ==> final(self).unique_claims(),
    {
        let ghost pre = *old(self);
        let n = self.authorities.len();
        let mut k: usize = 0;
        while k < n
            invariant
                *self == pre,
                pre.wf(),
                n == self.authorities@.len(),
                k <= n,
                forall|j: int| 0 <= j < k ==> !(#[trigger] self.authorities@[j]).games@.contains(
                    game,
                ),
            decreases n - k,
        {
            if contains_game(&self.authorities[k].games, game) {
                proof {
                    assert(self.authorities@[k as int].games@.contains(game));
                    lemma_game_in_some_record(self.authorities@, game);
                    let a0 = choose|a: AccountId|
                        games_in(self.authorities@, a).contains(game);
                    assert(pre.games_of(a0).contains(game));
                    assert(pre.claimed(game));
                }
                return Err(Error::AlreadyRegisteredGame);
            }
            k += 1;
        }
        proof {
            lemma_game_in_some_record(self.authorities@, game);
            assert(!pre.claimed(game));
        }
        let mut singleton: Vec<GameID> = Vec::new();
        singleton.push(game);
        let ghost gset = singleton@;
        proof {
            lemma_singleton_game_set(gset, game);
        }
        match find_account(&self.authorities, who) {
            Some(i) => {
                let rec = vstd::std_specs::vec::vec_index_mut(&mut self.authorities, i);
                *rec = AuthorityRecord { account: who, games: singleton };
                proof {
                    let r2 = self.authorities@[i as int];
                    assert(self.authorities@ == pre.authorities@.update(i as int, r2));
                    assert(r2.account == who && r2.games@ == gset);
                    lemma_games_in_update(pre.authorities@, i as int, r2);
                    self.lemma_register_game_post(pre, who, game, i as int);
                }
            },
            None => {
                self.authorities.push(AuthorityRecord { account: who, games: singleton });
                proof {
                    let r2 = self.authorities@.last();
                    assert(r2.account == who && r2.games@ == gset);
                    lemma_games_in_push(pre.authorities@, r2);
                    self.lemma_register_game_post(pre, who, game, pre.authorities@.len() as int);
                }
            },
        }
        Ok(())
    }

    /// Grant `new_authority` authority over `game`. Fails with
    /// `InvalidAuthority` when the actor does not hold `game`, or when the
    /// target already holds it, leaving the store unchanged; otherwise `game`
    /// is merged into the target's authority set, keeping its prior entries.
    /// No event is emitted.
    pub fn add_authority(
        &mut self,
        who: AccountId,
        game: GameID,
        new_authority: AccountId,
    ) -> (r: Result<(), Error>)
        requires
            old(self).wf(),
        ensures
            final(self).wf(),
            final(self).something == old(self).something,
            final(self).score == old(self).score,
            final(self).events == old(self).events,
            (!old(self).games_of(who).contains(game) || old(self).games_of(
                new_authority,
            ).contains(game)) ==> r == Err::<(), Error>(Error::InvalidAuthority) && *final(self)
                == *old(self),
            (old(self).games_of(who).contains(game) && !old(self).games_of(
                new_authority,
            ).contains(game)) ==> {
                &&& r == Ok::<(), Error>(())
                &&& final(self).games_of(new_authority) == old(self).games_of(
                    new_authority,
                ).insert(game)
                &&& forall|a: AccountId|
                    a != new_authority ==> final(self).games_of(a) == old(self).games_of(a)
            },
    {
        let ghost pre = *old(self);
        match find_account(&self.authorities, who) {
            None => {
                return Err(Error::InvalidAuthority);
            },
            Some(i) => {
                proof {
                    lemma_games_of_record(self.authorities@, i as int);
                }
                if !contains_game(&self.authorities[i].games, game) {
                    return Err(Error::InvalidAuthority);
                }
            },
        }
        match find_account(&self.authorities, new_authority) {
            None => {
                let mut games: Vec<GameID> = Vec::new();
                games.push(game);
                let ghost gset = games@;
                proof {
                    lemma_singleton_game_set(gset, game);
                }
                self.authorities.push(AuthorityRecord { account: new_authority, games });
                proof {
                    let r2 = self.authorities@.last();
                    assert(r2.account == new_authority && r2.games@ == gset);
                    lemma_games_in_push(pre.authorities@, r2);
                    assert(pre.games_of(new_authority) == Set::<GameID>::empty());
                    assert(self.games_of(new_authority) =~= pre.games_of(new_authority).insert(
                        game,
                    ));
                    assert forall|k: int|
                        0 <= k < self.authorities@.len() implies (
                        #[trigger] self.authorities@[k]).games@.no_duplicates() by {
                        if k < pre.authorities@.len() {
                            assert(self.authorities@[k] == pre.authorities@[k]);
                        }
                    }
                }
                Ok(())
            },
            Some(j) => {
                if contains_game(&self.authorities[j].games, game) {
                    proof {
                        lemma_games_of_record(self.authorities@, j as int);
                    }
                    return Err(Error::InvalidAuthority);
                }
                proof {
                    lemma_games_of_record(self.authorities@, j as int);
                }
                let ghost old_games = self.authorities@[j as int].games@;
                let rec = vstd::std_specs::vec::vec_index_mut(&mut self.authorities, j);
                rec.games.push(game);
                proof {
                    let r2 = self.authorities@[j as int];
                    assert(self.authorities@ == pre.authorities@.update(j as int, r2));
                    assert(r2.account == new_authority && r2.games@ == old_games.push(game));
                    lemma_games_in_update(pre.authorities@, j as int, r2);
                    old_games.lemma_push_to_set_commute(game);
                    assert(self.games_of(new_authority) == pre.games_of(new_authority).insert(
                        game,
                    ));
                    assert(r2.games@.no_duplicates()) by {
                        assert(forall|m: int|
                            0 <= m < old_games.len() ==> r2.games@[m] == old_games[m]);
                        assert(r2.games@[old_games.len() as int] == game);
                        assert(!old_games.contains(game));
                    }
                    assert forall|k: int|
                        0 <= k < self.authorities@.len() implies (
                        #[trigger] self.authorities@[k]).games@.no_duplicates() by {
                        if k != j as int {
                            assert(self.authorities@[k] == pre.authorities@[k]);
                        }
                    }
                }
                Ok(())
            },
        }
    }

    /// After a successful claim the new store is well formed, the actor's
    /// set is the singleton of the claimed game, and uniqueness of claims is
    /// preserved. `i` is the index of the actor's (new or replaced) record.
    proof fn lemma_register_game_post(self, pre: Pallet, who: AccountId, game: GameID, i: int)
        requires
            pre.wf(),
            !pre.claimed(game),
            unique_accounts(self.authorities@),
            0 <= i < self.authorities@.len(),
            i <= pre.authorities@.len(),
            self.authorities@.len() == (if i < pre.authorities@.len() {
                pre.authorities@.len() as int
            } else {
                pre.authorities@.len() + 1int
            }),
            self.authorities@[i].account == who,
            self.authorities@[i].games@.len() == 1,
            self.authorities@[i].games@[0] == game,
            self.games_of(who) == self.authorities@[i].games@.to_set(),
            forall|a: AccountId| a != who ==> self.games_of(a) == pre.games_of(a),
            forall|k: int|
                0 <= k < self.authorities@.len() && k != i ==> self.authorities@[k]
                    == pre.authorities@[k],
        ensures
            self.wf(),
            self.games_of(who) == Set::<GameID>::empty().insert(game),
            pre.unique_claims() ==> self.unique_claims(),
    {
        lemma_singleton_game_set(self.authorities@[i].games@, game);
        assert forall|k: int|
            0 <= k < self.authorities@.len() implies (#[trigger] self.authorities@[k]).games@.no_duplicates() by {
            if k != i {
                assert(self.authorities@[k] == pre.authorities@[k]);
            }
        }
        if pre.unique_claims() {
            assert forall|a1: AccountId, a2: AccountId, g: GameID|
                self.games_of(a1).contains(g) && self.games_of(a2).contains(
                    g,
                ) implies a1 == a2 by {
                if a1 == who && a2 != who {
                    assert(g == game);
                    assert(pre.games_of(a2).contains(game));
                    assert(pre.claimed(game));
                } else if a1 != who && a2 == who {
                    assert(g == game);
                    assert(pre.games_of(a1).contains(game));
                    assert(pre.claimed(game));
                } else if a1 != who && a2 != who {
                    assert(pre.games_of(a1).contains(g));
                    assert(pre.games_of(a2).contains(g));
                }
            }
        }
    }

    /// The `something` counter, or `None` when it was never written.
    pub fn something(&self) -> (r: Option<u32>)
        ensures
            r == self.something,
    {
        self.something
    }

    /// The `score` counter, or `None` when it was never written.
    pub fn score(&self) -> (r: Option<u32>)
        ensures
            r == self.score,
    {
        self.score
    }

    /// The games `account` may administer, as a duplicate-free vector;
    /// empty when the account has no record.
    pub fn authorities_map(&self, account: AccountId) -> (r: Vec<GameID>)
        requires
            self.wf(),
        ensures
            r@.to_set() == self.games_of(account),
            r@.no_duplicates(),
    {
        match find_account(&self.authorities, account) {
            None => {
                let r: Vec<GameID> = Vec::new();
                proof {
                    assert(r@.to_set() =~= Set::<GameID>::empty());
                }
                r
            },
            Some(i) => {
                proof {
                    lemma_games_of_record(self.authorities@, i as int);
                }
                let src = &self.authorities[i].games;
                let mut out: Vec<GameID> = Vec::new();
                let mut k: usize = 0;
                while k < src.len()
                    invariant
                        k <= src@.len(),
                        out@ == src@.subrange(0, k as int),
                    decreases src@.len() - k,
                {
                    out.push(src[k]);
                    proof {
                        assert(out@ =~= src@.subrange(0, k + 1int));
                    }
                    k += 1;
                }
                proof {
                    assert(out@ =~= src@);
                }
                out
            },
        }
    }
}

} // verus!
