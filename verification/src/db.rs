use vstd::prelude::*;

verus! {

/// The migration to run on a database whose `user_version` pragma reads `user_version`,
/// named by the schema version it brings the database to: the first one on a fresh
/// database (version 0), none on any other.
pub fn next_migration(user_version: i64) -> (m: Option<i64>)
    ensures
        m == (if user_version == 0 { Some(1i64) } else { None::<i64> }),
{
    if user_version == 0 {
        Some(1)
    } else {
        None
    }
}

} // verus!
