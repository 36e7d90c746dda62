//! An authority-scoped game registry with two monotonic counters.
//!
//! The library keeps, per account, the set of game identifiers that the
//! account may administer, together with two scalar counters that are bumped
//! with checked arithmetic. Every operation takes an already-authenticated
//! actor identity, validates its preconditions against the current store,
//! applies the change atomically, and appends at most one event to the
//! event log. Authentication, persistence and event delivery belong to the
//! hosting environment, not to this crate.

mod laws;
mod pallet;

pub use laws::lemma_register_replaces_add_authority_merges;
pub use laws::lemma_score_bumps_increase_by_one;
pub use pallet::AccountId;
pub use pallet::AuthorityRecord;
pub use pallet::Error;
pub use pallet::Event;
pub use pallet::GameID;
pub use pallet::Pallet;
