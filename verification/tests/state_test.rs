use photos::commands::{open_step, open_with_tree, LibraryOpenResult, OpenError, OpenStep};
use photos::nodes::{Model, NodeType, Timestamp};
use photos::state::{sqlite_url, App, AppState};
use photos::stores::{JobStore, NodeProcessor, NodeStore, QueueManager};
use sea_orm::DatabaseConnection;

fn root() -> Model {
    Model {
        id: 1,
        path: "/".to_string(),
        size: 12,
        node_type: NodeType::Directory,
        parent_id: None,
        created_at: Timestamp { secs: 5, nanos: 6 },
        updated_at: Timestamp { secs: 7, nanos: 8 },
        children: Vec::new(),
    }
}

#[test]
fn database_url_of_a_file() {
    assert_eq!(sqlite_url("/home/me/.local/photos.db"), "sqlite:///home/me/.local/photos.db?mode=rwc");
    assert_eq!(sqlite_url(""), "sqlite://?mode=rwc");
}

#[test]
fn test_open_library() {
    match open_with_tree(Some(root())) {
        Some(LibraryOpenResult::Node(n)) => assert_eq!(n.id, 1),
        other => panic!("unexpected {:?}", other),
    }
    assert!(open_with_tree(None).is_none());
}

#[test]
fn first_version_open_steps() {
    match open_step(Some(root()), false) {
        OpenStep::Expand(n) => assert_eq!(n.path, "/"),
        other => panic!("unexpected {:?}", other),
    }
    assert!(matches!(open_step(None, false), OpenStep::Index));
    match open_step(None, true) {
        OpenStep::Fail(e) => {
            assert_eq!(e, OpenError::PathNotFound);
            assert_eq!(e.message(), "Path not found");
        },
        other => panic!("unexpected {:?}", other),
    }
}

#[test]
fn stores_share_the_connection() {
    let db = DatabaseConnection::default();
    let jobs = JobStore::new(&db);
    assert!(matches!(jobs.db(), DatabaseConnection::Disconnected));
    let nodes = NodeStore::new(&db);
    assert!(matches!(nodes.db(), DatabaseConnection::Disconnected));
    let processor = NodeProcessor::new(nodes);
    assert!(matches!(processor.store.db(), DatabaseConnection::Disconnected));
    let queue = QueueManager::new(&db);
    assert!(matches!(queue.db(), DatabaseConnection::Disconnected));
    let app = App::from_connection(DatabaseConnection::default());
    assert!(matches!(app.db(), DatabaseConnection::Disconnected));
    let state = AppState::from_connection(DatabaseConnection::default());
    assert!(matches!(state.db(), DatabaseConnection::Disconnected));
}

#[test]
fn stores_and_states_copy_and_default() {
    let jobs = JobStore::new(&DatabaseConnection::default());
    let copy = jobs.clone();
    assert!(matches!(copy.db(), DatabaseConnection::Disconnected));
    assert!(matches!(App::default().db(), DatabaseConnection::Disconnected));
    assert!(matches!(AppState::default().db(), DatabaseConnection::Disconnected));
}
