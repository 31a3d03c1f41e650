use vstd::prelude::*;
use vstd::string::StringExecFns;
use sea_orm::DatabaseConnection;
use std::sync::Arc;

verus! {

/// The application state shared by the commands: the database connection.
#[derive(Default)]
pub struct App {
    db: Arc<DatabaseConnection>,
}

impl App {
    /// The state once the database at hand is connected and migrated.
    pub fn from_connection(connection: DatabaseConnection) -> (app: Self)
        ensures
            app.connection() == connection,
    {
        App { db: Arc::new(connection) }
    }

    /// The connection of the state.
    pub closed spec fn connection(&self) -> DatabaseConnection {
        *self.db
    }

    /// The connection of the state.
    pub fn db(&self) -> (db: &DatabaseConnection)
        ensures
            *db == self.connection(),
    {
        &self.db
    }
}

/// The application state of the open command that indexes in the foreground: the
/// database connection.
#[derive(Default)]
pub struct AppState {
    db: Arc<DatabaseConnection>,
}

impl AppState {
    /// The state once the database at hand is connected and migrated.
    pub fn from_connection(connection: DatabaseConnection) -> (state: Self)
        ensures
            state.connection() == connection,
    {
        AppState { db: Arc::new(connection) }
    }

    /// The connection of the state.
    pub closed spec fn connection(&self) -> DatabaseConnection {
        *self.db
    }

    /// The connection of the state.
    pub fn db(&self) -> (db: &DatabaseConnection)
        ensures
            *db == self.connection(),
    {
        &self.db
    }
}

/// The URL of the SQLite database file at `db_path`, created when missing.
pub open spec fn sqlite_url_of(db_path: Seq<char>) -> Seq<char> {
    "sqlite://"@ + db_path + "?mode=rwc"@
}

/// The database URL of a file is `sqlite://`, the file's path, and `?mode=rwc`
/// (read, write, and create the file when missing), and nothing else.
pub proof fn law_sqlite_url(db_path: Seq<char>)
    ensures
        sqlite_url_of(db_path) == "sqlite://"@ + db_path + "?mode=rwc"@,
        sqlite_url_of(db_path).len() == db_path.len() + 18,
        sqlite_url_of(db_path).subrange(0, 9) == "sqlite://"@,
        sqlite_url_of(db_path).subrange(9, 9 + db_path.len() as int) == db_path,
        sqlite_url_of(db_path).subrange(9 + db_path.len() as int, db_path.len() + 18 as int) == "?mode=rwc"@,
{
    reveal_strlit("sqlite://");
    reveal_strlit("?mode=rwc");
    let u = sqlite_url_of(db_path);
    assert(u.subrange(0, 9) =~= "sqlite://"@);
    assert(u.subrange(9, 9 + db_path.len() as int) =~= db_path);
    assert(u.subrange(9 + db_path.len() as int, db_path.len() + 18 as int) =~= "?mode=rwc"@);
}

/// The URL of the SQLite database file at `db_path`, opened for reading and
/// writing and created when missing.
pub fn sqlite_url(db_path: &str) -> (url: String)
    ensures
        url@ == sqlite_url_of(db_path@),
        url@ == "sqlite://"@ + db_path@ + "?mode=rwc"@,
        url@.len() == db_path@.len() + 18,
        url@.subrange(0, 9) == "sqlite://"@,
        url@.subrange(9, 9 + db_path@.len() as int) == db_path@,
        url@.subrange(9 + db_path@.len() as int, url@.len() as int) == "?mode=rwc"@,
{
    proof {
        law_sqlite_url(db_path@);
    }
    let mut url = String::from_str("sqlite://");
    url.append(db_path);
    url.append("?mode=rwc");
    url
}

} // verus!
