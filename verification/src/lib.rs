//! Self-balancing of game variables from recorded match results.
//!
//! A history of matches records who won and under which configuration. From
//! it the library derives how the wins are spread over the teams, how each
//! variable correlates with each team's wins, and an adjusted configuration
//! that should bring the teams' chances closer together.
//!
//! Values of variables and coefficients are fixed-point numbers in
//! millionths; shares of wins are exact ratios.

pub mod balance;
pub mod correlation;
pub mod distribution;
pub mod error;
pub mod game;
pub mod laws;
pub mod math;
pub mod wide;

use std::sync::Arc;
use std::sync::Mutex;
use vstd::prelude::*;

verus! {

/// `std::sync::Mutex`, carried through as an opaque value: nothing is known
/// of what a lock holds.
#[verifier::external_type_specification]
#[verifier::external_body]
#[verifier::reject_recursive_types(T)]
pub struct ExMutex<T: ?Sized>(Mutex<T>);

/// `Mutex::new` puts a value behind a fresh lock. The lock is opaque here, so
/// nothing is claimed of the result.
pub assume_specification<T>[ Mutex::<T>::new ](t: T) -> (m: Mutex<T>);

/// Puts `item` behind a lock that several owners can share, so that one
/// caller at a time reads or changes it. The lock that the result points to
/// is the one that `Mutex::new` makes of `item`.
pub fn wrap<T>(item: T) -> (shared: Arc<Mutex<T>>)
    ensures
        call_ensures(Mutex::<T>::new, (item,), *shared),
{
    Arc::new(Mutex::new(item))
}

/// What one game session holds: the configuration in force and the history
/// of its matches.
pub struct State {
    pub variables: game::GameVariables,
    pub matches: game::GameMatches,
}

} // verus!
