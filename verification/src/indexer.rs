use vstd::prelude::*;
use std::collections::VecDeque;
use crate::nodes::Model;
use crate::nodes::NodeType;

verus! {

/// The work of one indexing run: the paths still to be indexed, first in first out,
/// each with the id of the node it is to be stored under.
pub struct IndexQueue {
    queue: VecDeque<(String, Option<i32>)>,
}

impl View for IndexQueue {
    type V = Seq<(String, Option<i32>)>;

    closed spec fn view(&self) -> Seq<(String, Option<i32>)> {
        self.queue@
    }
}

/// The queue entries for the directory entries at `paths`, all under `parent_id`.
pub open spec fn entries_under(paths: Seq<String>, parent_id: i32) -> Seq<(String, Option<i32>)> {
    paths.map_values(|p: String| (p, Some(parent_id)))
}

/// Queueing the entries read from a directory: the queue entries are the paths
/// read, in the order read, each under the directory's id, one for each path.
pub proof fn law_entries_under(paths: Seq<String>, parent_id: i32)
    ensures
        entries_under(paths, parent_id).len() == paths.len(),
        forall|k: int|
            0 <= k < paths.len() ==> #[trigger] entries_under(paths, parent_id)[k] == (
                paths[k],
                Some(parent_id),
            ),
{
}

impl IndexQueue {
    /// The start of a run over `path`: the path itself, at the top (no parent).
    pub fn new(path: String) -> (q: Self)
        ensures
            q@ == seq![(path, None::<i32>)],
    {
        let mut queue = VecDeque::new();
        queue.push_back((path, None));
        IndexQueue { queue }
    }

    /// The next path to index and the id of the node it goes under, taken from the
    /// front of the queue; `None` once the run is done.
    pub fn next_path(&mut self) -> (next: Option<(String, Option<i32>)>)
        ensures
            old(self)@.len() == 0 ==> next is None && final(self)@ == old(self)@,
            old(self)@.len() > 0 ==> next == Some(old(self)@[0]) && final(self)@ == old(
                self,
            )@.drop_first(),
    {
        let next = self.queue.pop_front();
        proof {
            if old(self)@.len() > 0 {
                assert(old(self)@.subrange(1, old(self)@.len() as int) =~= old(self)@.drop_first());
            }
        }
        next
    }

    /// The directory whose entries are read after an entry was stored: the stored
    /// node's id when it is a directory; `None` when the entry could not be stored
    /// or is a file, and nothing below it is indexed.
    pub fn directory_to_read(stored: Option<&Model>) -> (dir: Option<i32>)
        ensures
            dir == match stored {
                Some(node) => if node.node_type == NodeType::Directory {
                    Some(node.id)
                } else {
                    None
                },
                None => None,
            },
    {
        match stored {
            Some(node) => if node.node_type == NodeType::Directory {
                Some(node.id)
            } else {
                None
            },
            None => None,
        }
    }

    /// Queues the entries read from the directory stored as `parent_id`, at the back
    /// and in the order they were read.
    pub fn push_entries(&mut self, parent_id: i32, entries: Vec<String>)
        ensures
            final(self)@ == old(self)@ + entries_under(entries@, parent_id),
            final(self)@.len() == old(self)@.len() + entries@.len(),
            forall|k: int| 0 <= k < old(self)@.len() ==> #[trigger] final(self)@[k] == old(self)@[k],
            forall|k: int|
                0 <= k < entries@.len() ==> #[trigger] final(self)@[old(self)@.len() + k] == (
                    entries@[k],
                    Some(parent_id),
                ),
    {
        let ghost start = self@;
        let ghost paths = entries@;
        let n = entries.len();
        let mut k: usize = 0;
        for entry in it: entries
            invariant
                it.seq() == paths,
                n == paths.len(),
                k == it.index(),
                self@ == start + entries_under(paths.take(k as int), parent_id),
        {
            proof {
                assert(entries_under(paths.take(k + 1), parent_id) =~= entries_under(
                    paths.take(k as int),
                    parent_id,
                ).push((entry, Some(parent_id))));
            }
            self.queue.push_back((entry, Some(parent_id)));
            proof {
                assert(self@ =~= start + entries_under(paths.take(k + 1), parent_id));
            }
            k = k + 1;
        }
        proof {
            assert(paths.take(paths.len() as int) =~= paths);
            assert forall|k: int| 0 <= k < paths.len() implies #[trigger] self@[start.len() + k] == (
                paths[k],
                Some(parent_id),
            ) by {
                assert(self@[start.len() + k] == entries_under(paths, parent_id)[k]);
            }
        }
    }
}

} // verus!
