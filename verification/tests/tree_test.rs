use photos::nodes::{new_node, node_record, Model, NodeType, Timestamp};
use photos::tree::{build_tree, path_depth};

fn at(secs: i64) -> Timestamp {
    Timestamp { secs, nanos: 0 }
}

fn row(id: i32, path: &str, size: i32, node_type: NodeType, parent_id: Option<i32>) -> Model {
    Model {
        id,
        path: path.to_string(),
        size,
        node_type,
        parent_id,
        created_at: at(1_700_000_000),
        updated_at: at(1_700_000_001),
        children: Vec::new(),
    }
}

fn child<'a>(node: &'a Model, path: &str) -> &'a Model {
    node.children.iter().find(|n| n.path == path).unwrap()
}

fn count(node: &Model) -> usize {
    1 + node.children.iter().map(count).sum::<usize>()
}

#[test]
fn test_with_children() {
    let rows = vec![
        row(1, "/", 12, NodeType::Directory, None),
        row(2, "/file.txt", 122, NodeType::File, Some(1)),
        row(3, "/folder", 12, NodeType::Directory, Some(1)),
        row(4, "/folder_two", 12, NodeType::Directory, Some(1)),
        row(5, "/folder/file.txt", 122, NodeType::File, Some(3)),
    ];

    let tree = build_tree(rows, &"/".to_string()).unwrap();

    assert_eq!(tree.children.len(), 3);
    assert_eq!(tree.children.iter().find(|n| n.path == "/folder").unwrap().children.len(), 1);
}

#[test]
fn tree_keeps_the_root_record() {
    let rows = vec![
        row(7, "/photos", 96, NodeType::Directory, Some(3)),
        row(8, "/photos/a.jpg", 2048, NodeType::File, Some(7)),
    ];
    let tree = build_tree(rows, &"/photos".to_string()).unwrap();
    assert_eq!(tree.id, 7);
    assert_eq!(tree.size, 96);
    assert_eq!(tree.parent_id, Some(3));
    assert_eq!(tree.created_at, at(1_700_000_000));
    assert_eq!(tree.updated_at, at(1_700_000_001));
    assert_eq!(tree.children.len(), 1);
    assert_eq!(tree.children[0].id, 8);
    assert_eq!(tree.children[0].size, 2048);
}

#[test]
fn tree_nests_deep_directories() {
    // Listed in an order where children come before their parents.
    let rows = vec![
        row(6, "/a/b/c/deep.txt", 1, NodeType::File, Some(5)),
        row(5, "/a/b/c", 0, NodeType::Directory, Some(4)),
        row(4, "/a/b", 0, NodeType::Directory, Some(3)),
        row(3, "/a", 0, NodeType::Directory, Some(1)),
        row(2, "/top.txt", 1, NodeType::File, Some(1)),
        row(1, "/", 0, NodeType::Directory, None),
    ];
    let tree = build_tree(rows, &"/".to_string()).unwrap();
    assert_eq!(count(&tree), 6);
    let a = child(&tree, "/a");
    let b = child(a, "/a/b");
    let c = child(b, "/a/b/c");
    assert_eq!(c.children.len(), 1);
    assert_eq!(c.children[0].path, "/a/b/c/deep.txt");
    assert_eq!(child(&tree, "/top.txt").children.len(), 0);
}

#[test]
fn tree_of_a_subdirectory() {
    let rows = vec![
        row(3, "/folder", 12, NodeType::Directory, Some(1)),
        row(5, "/folder/file.txt", 122, NodeType::File, Some(3)),
        row(6, "/folder/sub", 12, NodeType::Directory, Some(3)),
        row(7, "/folder/sub/x.png", 5, NodeType::File, Some(6)),
    ];
    let tree = build_tree(rows, &"/folder".to_string()).unwrap();
    assert_eq!(tree.id, 3);
    assert_eq!(count(&tree), 4);
    assert_eq!(child(&tree, "/folder/sub").children[0].id, 7);
}

#[test]
fn tree_needs_a_directory_at_the_path() {
    let rows = vec![
        row(1, "/", 0, NodeType::Directory, None),
        row(2, "/file.txt", 1, NodeType::File, Some(1)),
    ];
    assert!(build_tree(rows, &"/file.txt".to_string()).is_none());

    let rows = vec![row(1, "/", 0, NodeType::Directory, None)];
    assert!(build_tree(rows, &"/elsewhere".to_string()).is_none());

    assert!(build_tree(Vec::new(), &"/".to_string()).is_none());
}

#[test]
fn tree_leaves_out_nodes_without_a_listed_parent() {
    let rows = vec![
        row(1, "/", 0, NodeType::Directory, None),
        row(2, "/lost.txt", 1, NodeType::File, Some(42)),
        row(3, "/kept.txt", 1, NodeType::File, Some(1)),
        row(4, "/self", 0, NodeType::Directory, Some(4)),
    ];
    let tree = build_tree(rows, &"/".to_string()).unwrap();
    assert_eq!(tree.children.len(), 1);
    assert_eq!(tree.children[0].id, 3);
}

#[test]
fn tree_keeps_the_last_row_of_an_id() {
    let rows = vec![
        row(1, "/", 0, NodeType::Directory, None),
        row(2, "/old.txt", 1, NodeType::File, Some(1)),
        row(2, "/new.txt", 2, NodeType::File, Some(1)),
    ];
    let tree = build_tree(rows, &"/".to_string()).unwrap();
    assert_eq!(tree.children.len(), 1);
    assert_eq!(tree.children[0].path, "/new.txt");
    assert_eq!(tree.children[0].size, 2);
}

#[test]
fn tree_attaches_every_child_to_its_parent_id() {
    let rows = vec![
        row(10, "/r", 0, NodeType::Directory, None),
        row(11, "/r/x", 0, NodeType::Directory, Some(10)),
        row(12, "/r/y", 0, NodeType::Directory, Some(10)),
        row(13, "/r/x/1", 0, NodeType::File, Some(11)),
        row(14, "/r/y/2", 0, NodeType::File, Some(12)),
        row(15, "/r/y/3", 0, NodeType::File, Some(12)),
    ];
    let tree = build_tree(rows, &"/r".to_string()).unwrap();
    fn check(node: &Model) {
        for c in &node.children {
            assert_eq!(c.parent_id, Some(node.id));
            check(c);
        }
    }
    check(&tree);
    assert_eq!(count(&tree), 6);
    assert_eq!(child(&tree, "/r/y").children.len(), 2);
}

#[test]
fn depth_counts_slashes() {
    assert_eq!(path_depth(""), 0);
    assert_eq!(path_depth("/"), 1);
    assert_eq!(path_depth("/folder"), 1);
    assert_eq!(path_depth("/folder/file.txt"), 2);
    assert_eq!(path_depth("/ünï/cødé/ß"), 3);
    assert_eq!(path_depth("relative"), 0);
}

#[test]
fn tree_of_one_of_two_directories_at_a_path_holds_its_whole_subtree() {
    let rows = vec![
        row(1, "/lib", 0, NodeType::Directory, None),
        row(2, "/lib", 0, NodeType::Directory, None),
        row(3, "/lib/a.jpg", 1, NodeType::File, Some(1)),
        row(4, "/lib/b.jpg", 1, NodeType::File, Some(2)),
        row(5, "/lib/sub", 0, NodeType::Directory, Some(1)),
        row(6, "/lib/sub/c.jpg", 1, NodeType::File, Some(5)),
        row(7, "/lib/sub/deeper", 0, NodeType::Directory, Some(5)),
        row(8, "/lib/sub/deeper/d.jpg", 1, NodeType::File, Some(7)),
    ];
    let tree = build_tree(rows, &"/lib".to_string()).unwrap();
    fn ids(node: &Model, out: &mut Vec<i32>) {
        out.push(node.id);
        for c in &node.children {
            ids(c, out);
        }
    }
    let mut held = Vec::new();
    ids(&tree, &mut held);
    held.sort();
    if tree.id == 1 {
        assert_eq!(held, vec![1, 3, 5, 6, 7, 8]);
    } else {
        assert_eq!(held, vec![2, 4]);
    }
}

#[test]
fn new_node_records_its_fields() {
    let node = new_node("/a/b.png".to_string(), NodeType::File, 512, Some(3), at(1), at(2));
    assert_eq!(node.path, "/a/b.png");
    assert_eq!(node.node_type, NodeType::File);
    assert_eq!(node.size, 512);
    assert_eq!(node.parent_id, Some(3));
    assert_eq!(node.created_at, at(1));
    assert_eq!(node.updated_at, at(2));
}

#[test]
fn trees_copy_whole_and_compare() {
    let rows = vec![
        row(1, "/", 0, NodeType::Directory, None),
        row(2, "/d", 0, NodeType::Directory, Some(1)),
        row(3, "/d/f", 1, NodeType::File, Some(2)),
    ];
    let tree = build_tree(rows, &"/".to_string()).unwrap();
    let copy = tree.clone();
    assert_eq!(copy, tree);
    assert_eq!(count(&copy), 3);
    assert_eq!(copy.children[0].children[0].path, "/d/f");
    let mut other = tree.clone();
    other.children[0].children[0].size = 2;
    assert_ne!(other, tree);
}

#[test]
fn node_record_maps_the_metadata() {
    let dir = node_record("/pics".to_string(), true, 96, None, at(5), at(6));
    assert_eq!(dir.node_type, NodeType::Directory);
    assert_eq!(dir.path, "/pics");
    assert_eq!(dir.size, 96);
    assert_eq!(dir.parent_id, None);
    assert_eq!(dir.created_at, at(5));
    assert_eq!(dir.updated_at, at(6));
    let file = node_record("/pics/a.jpg".to_string(), false, 7, Some(1), at(8), at(9));
    assert_eq!(file.node_type, NodeType::File);
    assert_eq!(file.parent_id, Some(1));
    assert_eq!(file.created_at, at(8));
    assert_eq!(file.updated_at, at(9));
}
