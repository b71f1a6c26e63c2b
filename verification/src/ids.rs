//! Opaque identifiers for sessions, stories and users: 128-bit random
//! tokens compared by value.

use vstd::prelude::*;

verus! {

/// Identifies one game session.
#[derive(Clone, Copy, PartialEq, Eq, Structural, Hash, Debug)]
pub struct GameId(pub u128);

impl GameId {
    pub fn new(token: u128) -> (r: Self)
        ensures
            r.0 == token,
    {
        GameId(token)
    }
}

/// Identifies one story.
#[derive(Clone, Copy, PartialEq, Eq, Structural, Hash, Debug)]
pub struct StoryId(pub u128);

impl StoryId {
    pub fn new(token: u128) -> (r: Self)
        ensures
            r.0 == token,
    {
        StoryId(token)
    }
}

/// Identifies one user.
#[derive(Clone, Copy, PartialEq, Eq, Structural, Hash, Debug)]
pub struct UserId(pub u128);

impl UserId {
    pub fn new(token: u128) -> (r: Self)
        ensures
            r.0 == token,
    {
        UserId(token)
    }
}

/// Relies on `uuid::Uuid::new_v4` for a freshly drawn random token
/// (`as_u128` turns it into its 128-bit value).  Nothing can be promised
/// of a random value, so this carries no contract.
#[verifier::external_body]
pub(crate) fn fresh_token() -> u128 {
    uuid::Uuid::new_v4().as_u128()
}

} // verus!
