use vstd::prelude::*;

verus! {

/// A stored credential record, paired with its `User` in the user store.
#[derive(Debug, PartialEq, Eq)]
pub struct UserPassword {
    pub user_id: u32,
    pub password: String,
}

/// Handle for the user store. Reading and writing the store is file I/O
/// and lives with the embedding application.
pub struct FileHandler {}

} // verus!
