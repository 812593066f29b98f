//! A cache of chain states by block identity, for a node that follows several
//! competing forks of one chain at once.
//!
//! Every state is the result of applying the blocks of one fork, in order, to the
//! genesis state.  The [`multiverse::Multiverse`] keeps such states by the id of
//! the last block applied, thins the old ones out on a schedule whose gaps widen
//! with the distance from the longest chain, never drops a state that somebody
//! still holds, and says how a missing state is rebuilt from the nearest one it
//! still has.
pub mod bound;
pub mod chain;
pub mod collection;
pub mod entry;
pub mod index;
pub mod multiverse;
pub mod reconstruct;
pub mod schedule;
