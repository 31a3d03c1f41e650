use vstd::prelude::*;
use sea_orm::DatabaseConnection;

verus! {

/// The database handle of `sea_orm`; opaque to the verified code.
#[verifier::external_type_specification]
#[verifier::external_body]
pub struct ExDatabaseConnection(DatabaseConnection);

/// Calls `<DatabaseConnection as Clone>::clone`. The connection enum derives
/// `Clone` and its variants hold handles to a shared pool, so the clone is a handle
/// to the same pool; the contract takes it as equal to the original.
#[verifier::external_body]
pub(crate) fn clone_connection(db: &DatabaseConnection) -> (res: DatabaseConnection)
    ensures
        res == *db,
{
    db.clone()
}

} // verus!
