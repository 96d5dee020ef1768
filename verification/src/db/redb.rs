//! A build database stored in a file with `redb`.

use vstd::prelude::*;

verus! {

#[verifier::external_type_specification]
#[verifier::external_body]
pub struct ExDatabase(redb::Database);

#[verifier::external_type_specification]
#[verifier::external_body]
pub struct ExDatabaseError(redb::DatabaseError);

/// `redb::Database::create`: opens the database file at the path, creating
/// it where it is absent. What it gives depends on the file system, so
/// nothing is promised of the result.
#[verifier::external_body]
fn database_create(path: &str) -> (r: Result<redb::Database, redb::DatabaseError>) {
    redb::Database::create(path)
}

/// `redb::DatabaseError`'s `Display`: the message of the error. Nothing is
/// promised of the text.
#[verifier::external_body]
fn database_error_message(e: &redb::DatabaseError) -> (s: String) {
    format!("{}", e)
}

/// The reason a database file could not be opened.
#[derive(Debug, Clone)]
pub struct DbOpenError {
    pub message: String,
}

/// A build database stored in a file with `redb`.
pub struct ExecRedb {
    inner: redb::Database,
}

impl ExecRedb {
    /// The database file this is stored in.
    pub closed spec fn spec_inner(&self) -> redb::Database {
        self.inner
    }

    /// Use an opened `redb` database.
    pub fn new(inner: redb::Database) -> (r: Self)
        ensures
            r.spec_inner() == inner,
    {
        ExecRedb { inner }
    }

    /// Open the database file at the path, creating it where it is absent.
    pub fn open(path: &str) -> (r: Result<Self, DbOpenError>) {
        match database_create(path) {
            Ok(db) => Ok(ExecRedb::new(db)),
            Err(e) => Err(DbOpenError { message: database_error_message(&e) }),
        }
    }

    /// The `redb` database this is stored in.
    pub fn database(&self) -> (r: &redb::Database)
        ensures
            *r == self.spec_inner(),
    {
        &self.inner
    }
}

} // verus!
