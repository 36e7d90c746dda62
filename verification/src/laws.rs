//! Laws that relate several operations of the store.
//!
//! Single-operation guarantees — uniqueness of claims under `register_game`,
//! the overflow guard, and the authority precondition of `add_authority` —
//! are stated directly in those operations' contracts in [`crate::pallet`].

use vstd::prelude::*;

use crate::pallet::AccountId;
use crate::pallet::GameID;
use crate::pallet::Pallet;

verus! {

/// Law: over any run of successful score bumps, the returned values increase
/// by exactly one. `Pallet::score_after_bump` is the relation that
/// `increment_score`'s contract establishes between the prior score and the
/// returned value, and a successful bump stores the value it returns; so a
/// bump that starts from the store a bump returning `v1` wrote returns
/// `v1 + 1`.
pub proof fn lemma_score_bumps_increase_by_one(before: Option<u32>, v1: u32, v2: u32)
    requires
        Pallet::score_after_bump(before, v1),
        Pallet::score_after_bump(Some(v1), v2),
    ensures
        v2 == v1 + 1,
{
}

/// Law: claiming replaces, granting merges. From a store where `actor`
/// already holds `g1`, a successful `register_game(actor, g2)` leaves the
/// actor holding exactly `{g2}` — `g1` is dropped — while a successful
/// `add_authority(_, g2, actor)` leaves the actor holding `g1` and `g2`
/// both. The two middle premises are what the respective contracts ensure
/// of the affected account's set on success.
pub proof fn lemma_register_replaces_add_authority_merges(
    pre: Pallet,
    post_register: Pallet,
    post_add: Pallet,
    actor: AccountId,
    g1: GameID,
    g2: GameID,
)
    requires
        pre.games_of(actor).contains(g1),
        g1 != g2,
        post_register.games_of(actor) == Set::<GameID>::empty().insert(g2),
        post_add.games_of(actor) == pre.games_of(actor).insert(g2),
    ensures
        !post_register.games_of(actor).contains(g1),
        post_register.games_of(actor).contains(g2),
        post_add.games_of(actor).contains(g1),
        post_add.games_of(actor).contains(g2),
{
}

} // verus!
