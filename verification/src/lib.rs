//! Verified core of a photo library indexer: the tree assembly of stored
//! nodes, the indexing work queue, the job records, the stores' handles and the
//! decisions of the library commands.

pub mod commands;
pub mod db;
pub mod indexer;
pub mod jobs;
pub mod nodes;
pub mod state;
pub mod stores;
pub mod tree;
