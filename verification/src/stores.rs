use vstd::prelude::*;
use sea_orm::DatabaseConnection;
use std::sync::Arc;
use crate::db::clone_connection;

verus! {

/// A store of background jobs backed by the database.
#[derive(Clone)]
pub struct JobStore {
    pub db: Arc<DatabaseConnection>,
}

impl JobStore {
    /// Creates a store that shares the given connection.
    pub fn new(db: &DatabaseConnection) -> (store: Self)
        ensures
            *store.db == *db,
    {
        JobStore { db: Arc::new(clone_connection(db)) }
    }

    /// The connection the store works on.
    pub fn db(&self) -> (db: &DatabaseConnection)
        ensures
            *db == *self.db,
    {
        &self.db
    }
}

/// A store of file and directory nodes backed by the database.
pub struct NodeStore {
    db: DatabaseConnection,
}

impl NodeStore {
    /// Creates a store that shares the given connection.
    pub fn new(db: &DatabaseConnection) -> (store: Self)
        ensures
            store.connection() == *db,
    {
        NodeStore { db: clone_connection(db) }
    }

    /// The connection the store works on.
    pub closed spec fn connection(&self) -> DatabaseConnection {
        self.db
    }

    /// The connection the store works on.
    pub fn db(&self) -> (db: &DatabaseConnection)
        ensures
            *db == self.connection(),
    {
        &self.db
    }
}

/// Turns entries found on disk into stored nodes.
pub struct NodeProcessor {
    pub store: NodeStore,
}

impl NodeProcessor {
    /// A processor that stores nodes in `store`.
    pub fn new(store: NodeStore) -> (p: Self)
        ensures
            p.store == store,
    {
        NodeProcessor { store }
    }
}

/// A queue of background jobs kept in the database.
pub struct QueueManager {
    db: DatabaseConnection,
}

impl QueueManager {
    /// A queue on the given connection.
    pub fn new(db: &DatabaseConnection) -> (q: Self)
        ensures
            q.connection() == *db,
    {
        QueueManager { db: clone_connection(db) }
    }

    /// The connection the queue works on.
    pub closed spec fn connection(&self) -> DatabaseConnection {
        self.db
    }

    /// The connection the queue works on.
    pub fn db(&self) -> (db: &DatabaseConnection)
        ensures
            *db == self.connection(),
    {
        &self.db
    }
}

} // verus!
