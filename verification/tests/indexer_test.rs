use photos::indexer::IndexQueue;
use photos::nodes::{node_size, save_mode, Model, NodeType, SaveMode, SizeError, Timestamp};

fn node(id: i32, node_type: NodeType) -> Model {
    Model {
        id,
        path: format!("/n{id}"),
        size: 0,
        node_type,
        parent_id: None,
        created_at: Timestamp { secs: 0, nanos: 0 },
        updated_at: Timestamp { secs: 0, nanos: 0 },
        children: Vec::new(),
    }
}

#[test]
fn queue_runs_first_in_first_out() {
    let mut q = IndexQueue::new("/lib".to_string());
    assert_eq!(q.next_path(), Some(("/lib".to_string(), None)));
    assert_eq!(q.next_path(), None);

    q.push_entries(1, vec!["/lib/a".to_string(), "/lib/b".to_string()]);
    q.push_entries(2, vec!["/lib/a/c".to_string()]);
    assert_eq!(q.next_path(), Some(("/lib/a".to_string(), Some(1))));
    q.push_entries(3, Vec::new());
    assert_eq!(q.next_path(), Some(("/lib/b".to_string(), Some(1))));
    assert_eq!(q.next_path(), Some(("/lib/a/c".to_string(), Some(2))));
    assert_eq!(q.next_path(), None);
}

#[test]
fn only_stored_directories_are_read() {
    assert_eq!(IndexQueue::directory_to_read(Some(&node(1, NodeType::Directory))), Some(1));
    assert_eq!(IndexQueue::directory_to_read(Some(&node(2, NodeType::File))), None);
    assert_eq!(IndexQueue::directory_to_read(None), None);
}

#[test]
fn node_types_from_metadata() {
    assert_eq!(NodeType::from_is_dir(true), NodeType::Directory);
    assert_eq!(NodeType::from_is_dir(false), NodeType::File);
    assert_eq!(NodeType::from_is_file(true), NodeType::File);
    assert_eq!(NodeType::from_is_file(false), NodeType::Directory);
}

#[test]
fn sizes_must_fit_an_i32() {
    assert_eq!(node_size(0), Ok(0));
    assert_eq!(node_size(122), Ok(122));
    assert_eq!(node_size(2_147_483_647), Ok(i32::MAX));
    assert_eq!(node_size(2_147_483_648), Err(SizeError::TooLarge { len: 2_147_483_648 }));
    assert_eq!(node_size(u64::MAX), Err(SizeError::TooLarge { len: u64::MAX }));
}

#[test]
fn records_with_an_id_update() {
    assert_eq!(save_mode(Some(4)), SaveMode::Update(4));
    assert_eq!(save_mode(None), SaveMode::Insert);
}
