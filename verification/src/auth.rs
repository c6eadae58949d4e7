//! Who a client is.

use vstd::prelude::*;

verus! {

/// What a user enters to log in.
#[derive(Clone, Debug, PartialEq, Eq)]
pub struct Login {
    pub username: String,
}

/// What a token says of its bearer, and what a room is told of a client
/// that connects.
#[derive(Clone, Debug, PartialEq, Eq)]
pub struct UserData {
    pub id: u64,
    pub username: String,
}

impl Login {
    /// The user that logs in, under the number drawn for it.
    pub fn into_user(self, id: u64) -> (user: UserData)
        ensures
            user.id == id,
            user.username@ == self.username@,
    {
        UserData { id, username: self.username }
    }
}

} // verus!
