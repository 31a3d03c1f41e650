use vstd::prelude::*;
use vstd::multiset::Multiset;

verus! {

/// Whether a node stands for a file or a directory.
#[derive(Clone, Copy, Debug, PartialEq, Eq, Structural)]
pub enum NodeType {
    File,
    Directory,
}

/// A point in time, as seconds and nanoseconds since the Unix epoch (UTC).
#[derive(Clone, Copy, Debug, PartialEq, Eq, Structural)]
pub struct Timestamp {
    pub secs: i64,
    pub nanos: u32,
}

/// A stored file or directory, with the nodes attached below it.
#[derive(Debug, PartialEq, Eq)]
pub struct Model {
    pub id: i32,
    pub path: String,
    pub size: i32,
    pub node_type: NodeType,
    pub parent_id: Option<i32>,
    pub created_at: Timestamp,
    pub updated_at: Timestamp,
    pub children: Vec<Model>,
}

/// The ids of a node and of every node below it.
pub open spec fn tree_ids(t: Model) -> Multiset<i32>
    decreases t, 1nat,
{
    Multiset::singleton(t.id).add(forest_ids(t.children@))
}

/// The ids of every node in a list of trees.
pub open spec fn forest_ids(s: Seq<Model>) -> Multiset<i32>
    decreases s, 0nat,
{
    if s.len() == 0 {
        Multiset::empty()
    } else {
        forest_ids(s.drop_last()).add(tree_ids(s.last()))
    }
}

/// The ids below a node hold the node's own id and the ids below each of its
/// children, and nothing more: as many as the nodes of the tree.
pub proof fn law_tree_ids(t: Model)
    ensures
        tree_ids(t).count(t.id) >= 1,
        forall|k: int|
            0 <= k < t.children@.len() ==> (#[trigger] tree_ids(t.children@[k])).subset_of(
                tree_ids(t),
            ),
        t.children@.len() == 0 ==> tree_ids(t) == Multiset::singleton(t.id),
{
    broadcast use vstd::multiset::group_multiset_axioms;

    assert forall|k: int| 0 <= k < t.children@.len() implies (#[trigger] tree_ids(
        t.children@[k],
    )).subset_of(tree_ids(t)) by {
        lemma_forest_holds(t.children@, k);
    }
    if t.children@.len() == 0 {
        assert(tree_ids(t) =~= Multiset::singleton(t.id));
    }
}

proof fn lemma_forest_holds(s: Seq<Model>, k: int)
    requires
        0 <= k < s.len(),
    ensures
        tree_ids(s[k]).subset_of(forest_ids(s)),
    decreases s.len(),
{
    broadcast use vstd::multiset::group_multiset_axioms;

    if k < s.len() - 1 {
        lemma_forest_holds(s.drop_last(), k);
        assert(s.drop_last()[k] == s[k]);
    }
}

/// `a` and `b` agree on every field but the children.
pub open spec fn same_record(a: Model, b: Model) -> bool {
    &&& a.id == b.id
    &&& a.path@ == b.path@
    &&& a.size == b.size
    &&& a.node_type == b.node_type
    &&& a.parent_id == b.parent_id
    &&& a.created_at == b.created_at
    &&& a.updated_at == b.updated_at
}

/// `a` and `b` are the same tree: the same record at every node, with the same
/// children in the same order.
pub open spec fn same_tree(a: Model, b: Model) -> bool
    decreases a,
{
    &&& same_record(a, b)
    &&& a.children@.len() == b.children@.len()
    &&& forall|k: int|
        0 <= k < a.children@.len() ==> same_tree(
            #[trigger] a.children@[k],
            b.children@[k],
        )
}

impl Model {
    /// A copy of the node and of every node below it.
    fn copy_tree(&self) -> (c: Model)
        ensures
            same_tree(c, *self),
            tree_ids(c) == tree_ids(*self),
        decreases self,
    {
        let n = self.children.len();
        let mut children: Vec<Model> = Vec::new();
        let mut i: usize = 0;
        while i < n
            invariant
                n == self.children@.len(),
                i <= n,
                children@.len() == i,
                forest_ids(children@) == forest_ids(self.children@.take(i as int)),
                forall|k: int| 0 <= k < i ==> same_tree(#[trigger] children@[k], self.children@[k]),
            decreases n - i,
        {
            proof {
                assert(decreases_to!(self => self.children@[i as int]));
            }
            let child = self.children[i].copy_tree();
            let ghost before = children@;
            children.push(child);
            proof {
                assert(children@[i as int] == child);
                assert(forall|k: int| 0 <= k < i ==> children@[k] == before[k]);
                assert(children@.drop_last() =~= before);
                assert(self.children@.take(i + 1).drop_last() =~= self.children@.take(i as int));
            }
            i += 1;
        }
        proof {
            assert(self.children@.take(n as int) =~= self.children@);
        }
        Model {
            id: self.id,
            path: self.path.clone(),
            size: self.size,
            node_type: self.node_type,
            parent_id: self.parent_id,
            created_at: self.created_at,
            updated_at: self.updated_at,
            children,
        }
    }
}

impl Clone for Model {
    /// A copy of the node and of every node below it.
    fn clone(&self) -> (c: Self)
        ensures
            same_tree(c, *self),
            tree_ids(c) == tree_ids(*self),
    {
        self.copy_tree()
    }
}

/// A node as it is first stored: every field but the id, which the store assigns.
#[derive(Clone, Debug, PartialEq, Eq)]
pub struct NewNode {
    pub path: String,
    pub size: i32,
    pub node_type: NodeType,
    pub parent_id: Option<i32>,
    pub created_at: Timestamp,
    pub updated_at: Timestamp,
}

/// The record of an entry found at `path`, of type `node_type` and `size` bytes,
/// below the node `parent_id` (none for the top of an indexing run), created and
/// last modified at the given times.
pub fn new_node(
    path: String,
    node_type: NodeType,
    size: i32,
    parent_id: Option<i32>,
    created_at: Timestamp,
    updated_at: Timestamp,
) -> (node: NewNode)
    ensures
        node.path == path,
        node.node_type == node_type,
        node.size == size,
        node.parent_id == parent_id,
        node.created_at == created_at,
        node.updated_at == updated_at,
{
    NewNode { path, size, node_type, parent_id, created_at, updated_at }
}

/// The record the indexer stores for an entry read from disk at `path`: a
/// directory if its metadata says it is one, else a file; of `size` bytes (the
/// length `node_size` accepted); below `parent_id`; created and last modified at
/// the times the metadata gives.
pub fn node_record(
    path: String,
    is_dir: bool,
    size: i32,
    parent_id: Option<i32>,
    created: Timestamp,
    modified: Timestamp,
) -> (node: NewNode)
    ensures
        node.path == path,
        node.node_type == (if is_dir { NodeType::Directory } else { NodeType::File }),
        node.size == size,
        node.parent_id == parent_id,
        node.created_at == created,
        node.updated_at == modified,
{
    new_node(path, NodeType::from_is_dir(is_dir), size, parent_id, created, modified)
}

/// A file whose length does not fit the stored size.
#[derive(Clone, Copy, Debug, PartialEq, Eq, Structural)]
pub enum SizeError {
    TooLarge { len: u64 },
}

impl NodeType {
    /// The type of an entry whose metadata says whether it is a directory:
    /// a directory, or else a file.
    pub fn from_is_dir(is_dir: bool) -> (t: NodeType)
        ensures
            t == (if is_dir { NodeType::Directory } else { NodeType::File }),
    {
        if is_dir {
            NodeType::Directory
        } else {
            NodeType::File
        }
    }

    /// The type of an entry whose metadata says whether it is a file:
    /// a file, or else a directory.
    pub fn from_is_file(is_file: bool) -> (t: NodeType)
        ensures
            t == (if is_file { NodeType::File } else { NodeType::Directory }),
    {
        if is_file {
            NodeType::File
        } else {
            NodeType::Directory
        }
    }
}

/// The stored size of an entry of `len` bytes: `len` itself when it fits an `i32`.
pub fn node_size(len: u64) -> (size: Result<i32, SizeError>)
    ensures
        len <= i32::MAX ==> size == Ok::<i32, SizeError>(len as i32),
        len > i32::MAX ==> size == Err::<i32, SizeError>(SizeError::TooLarge { len }),
{
    if len <= 2147483647u64 {
        Ok(len as i32)
    } else {
        Err(SizeError::TooLarge { len })
    }
}


/// How a node record is written to the store.
#[derive(Clone, Copy, Debug, PartialEq, Eq, Structural)]
pub enum SaveMode {
    /// A new row; the store assigns the id.
    Insert,
    /// The row with this id is overwritten.
    Update(i32),
}

/// How to save a node record whose id is set to `id`, or not set: a record that
/// carries an id updates the stored row, any other is inserted.
pub fn save_mode(id: Option<i32>) -> (mode: SaveMode)
    ensures
        id matches Some(i) ==> mode == SaveMode::Update(i),
        id is None ==> mode == SaveMode::Insert,
{
    match id {
        Some(i) => SaveMode::Update(i),
        None => SaveMode::Insert,
    }
}

} // verus!
