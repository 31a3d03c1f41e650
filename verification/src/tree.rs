use vstd::prelude::*;
use vstd::multiset::Multiset;
use vstd::utf8::encode_utf8;
use vstd::utf8::encode_scalar;
use std::collections::HashMap;
use crate::nodes::Model;
use crate::nodes::NodeType;
use crate::nodes::tree_ids;
use crate::nodes::forest_ids;
use crate::nodes::same_record;

verus! {

broadcast use vstd::std_specs::hash::group_hash_axioms;

/// The number of `/` characters in a path: how deep the path lies.
pub open spec fn slash_count(p: Seq<char>) -> nat
    decreases p.len(),
{
    if p.len() == 0 {
        0
    } else {
        slash_count(p.drop_last()) + if p.last() == '/' { 1nat } else { 0nat }
    }
}

proof fn lemma_slash_count_concat(a: Seq<char>, b: Seq<char>)
    ensures
        slash_count(a + b) == slash_count(a) + slash_count(b),
    decreases b.len(),
{
    if b.len() > 0 {
        lemma_slash_count_concat(a, b.drop_last());
        assert((a + b).drop_last() =~= a + b.drop_last());
    } else {
        assert(a + b =~= a);
    }
}

/// The depth of a path counts its `/` characters: it adds up over concatenation,
/// a single `/` counts one, any other single character none, and it never exceeds
/// the path's length.
pub proof fn law_slash_count(a: Seq<char>, b: Seq<char>, c: char)
    ensures
        slash_count(a + b) == slash_count(a) + slash_count(b),
        slash_count(Seq::<char>::empty()) == 0,
        slash_count(seq![c]) == if c == '/' { 1nat } else { 0nat },
        slash_count(a) <= a.len(),
    decreases a.len(),
{
    lemma_slash_count_concat(a, b);
    assert(seq![c].drop_last() =~= Seq::<char>::empty());
    if a.len() > 0 {
        law_slash_count(a.drop_last(), b, c);
    }
}

/// The path of an entry read from a directory, the directory's path, a `/` and the
/// entry's name, lies deeper than the directory: so the directory pass, deepest
/// first, takes every such entry before the directory it was read from.
pub proof fn law_entry_lies_deeper(dir: Seq<char>, name: Seq<char>)
    ensures
        slash_count(dir + seq!['/'] + name) == slash_count(dir) + 1 + slash_count(name),
        slash_count(dir) < slash_count(dir + seq!['/'] + name),
{
    lemma_slash_count_concat(dir, seq!['/']);
    lemma_slash_count_concat(dir + seq!['/'], name);
    let slash = seq!['/'];
    assert(slash.drop_last() =~= Seq::<char>::empty());
    assert(slash.last() == '/');
    assert(slash_count(Seq::<char>::empty()) == 0);
    assert(slash_count(slash) == 1);
}

/// Every character takes at least one byte in UTF-8.
proof fn lemma_encoding_not_shorter(s: Seq<char>)
    ensures
        s.len() <= encode_utf8(s).len(),
    decreases s.len(),
{
    if s.len() > 0 {
        lemma_encoding_not_shorter(s.drop_first());
        assert(encode_scalar(s[0] as u32).len() >= 1);
    }
}

/// Counts the `/` characters of `path` (`path.matches('/').count()`).
pub fn path_depth(path: &str) -> (depth: usize)
    ensures
        depth == slash_count(path@),
{
    broadcast use vstd::string::axiom_spec_iter;

    let n_bytes = path.as_bytes().len();
    proof {
        lemma_encoding_not_shorter(path@);
    }
    let mut depth: usize = 0;
    for c in it: path.chars()
        invariant
            it.seq() == path@,
            path@.len() <= n_bytes,
            depth <= it.index(),
            depth == slash_count(path@.take(it.index())),
    {
        assert(path@.take(it.index() + 1).drop_last() =~= path@.take(it.index()));
        if c == '/' {
            depth = depth + 1;
        }
    }
    assert(path@.take(path@.len() as int) =~= path@);
    depth
}


/// Row `i` is the last one of `rows` with its id: the one a map keyed by id keeps.
pub open spec fn kept(rows: Seq<Model>, i: int) -> bool {
    &&& 0 <= i < rows.len()
    &&& forall|j: int| i < j < rows.len() ==> rows[j].id != rows[i].id
}

/// `t` is the row `r` with nodes attached after the children `r` already had:
/// each attached node names `t` as its parent and is itself grown from a kept row.
pub open spec fn grown_from(rows: Seq<Model>, r: Model, t: Model) -> bool
    decreases t, 0nat,
{
    &&& same_record(r, t)
    &&& r.children@.len() <= t.children@.len()
    &&& t.children@.subrange(0, r.children@.len() as int) == r.children@
    &&& forall|k: int|
        r.children@.len() <= k < t.children@.len() ==> {
            &&& (#[trigger] t.children@[k]).parent_id == Some(t.id)
            &&& grown(rows, t.children@[k])
        }
}

/// `t` is grown from some kept row of `rows`.
pub open spec fn grown(rows: Seq<Model>, t: Model) -> bool
    decreases t, 1nat,
{
    exists|i: int| kept(rows, i) && grown_from(rows, rows[i], t)
}

/// `r` is a directory at `path`: the node the tree is built for.
pub open spec fn is_root_dir(r: Model, path: Seq<char>) -> bool {
    r.node_type == NodeType::Directory && r.path@ == path
}

/// Row `j` of `rows` is a directory that row `i` names as its parent and, where
/// both are directories below the root, `j` lies higher than `i`.
pub open spec fn parent_row(rows: Seq<Model>, path: Seq<char>, i: int, j: int) -> bool {
    &&& 0 <= j < rows.len()
    &&& rows[j].node_type == NodeType::Directory
    &&& rows[i].parent_id == Some(rows[j].id)
    &&& (rows[i].node_type == NodeType::Directory && !is_root_dir(rows[j], path))
        ==> slash_count(rows[j].path@) < slash_count(rows[i].path@)
}

/// `rows` hold one directory at `path` and nodes below it: distinct ids, one
/// directory at `path`, and every other row names a listed directory as its parent,
/// one that lies higher than itself if both are directories below the root.
pub open spec fn linked(rows: Seq<Model>, path: Seq<char>) -> bool {
    &&& forall|i: int, j: int|
        0 <= i < rows.len() && 0 <= j < rows.len() && i != j ==> rows[i].id != rows[j].id
    &&& exists|r: int|
        0 <= r < rows.len() && is_root_dir(rows[r], path) && forall|k: int|
            0 <= k < rows.len() && is_root_dir(#[trigger] rows[k], path) ==> k == r
    &&& forall|i: int|
        0 <= i < rows.len() && !is_root_dir(#[trigger] rows[i], path) ==> exists|j: int|
            parent_row(rows, path, i, j)
}

/// `rows` list one directory at `path` and nodes below it as the store returns
/// them: linked, and without children yet.
pub open spec fn listing(rows: Seq<Model>, path: Seq<char>) -> bool {
    &&& forall|i: int| 0 <= i < rows.len() ==> (#[trigger] rows[i]).children@.len() == 0
    &&& linked(rows, path)
}

/// The ids of the rows.
pub open spec fn row_ids(rows: Seq<Model>) -> Multiset<i32>
    decreases rows.len(),
{
    if rows.len() == 0 {
        Multiset::empty()
    } else {
        row_ids(rows.drop_last()).insert(rows.last().id)
    }
}

/// The ids of the rows hold each row's id, once per row.
pub proof fn law_row_ids(rows: Seq<Model>)
    ensures
        row_ids(rows).len() == rows.len(),
        forall|i: int| 0 <= i < rows.len() ==> row_ids(rows).count(#[trigger] rows[i].id) >= 1,
    decreases rows.len(),
{
    broadcast use vstd::multiset::group_multiset_axioms;

    if rows.len() > 0 {
        law_row_ids(rows.drop_last());
        assert forall|i: int| 0 <= i < rows.len() implies row_ids(rows).count(
            #[trigger] rows[i].id,
        ) >= 1 by {
            if i < rows.len() - 1 {
                assert(rows.drop_last()[i] == rows[i]);
            }
        }
    }
}

/// Of the rows with one id, the last is kept and no other is: the last row is
/// always kept, and a row with a later row of the same id is not.
pub proof fn law_kept(rows: Seq<Model>, i: int, j: int)
    ensures
        rows.len() > 0 ==> kept(rows, rows.len() - 1),
        0 <= i < j < rows.len() && rows[i].id == rows[j].id ==> !kept(rows, i),
{
}

/// One slot per row: the row itself if it is kept, else nothing.
pub open spec fn kept_slots(rows: Seq<Model>) -> Seq<Option<Model>> {
    Seq::new(rows.len(), |k: int| if kept(rows, k) { Some(rows[k]) } else { None })
}

/// The ids held in a slot.
pub open spec fn opt_ids(o: Option<Model>) -> Multiset<i32> {
    match o {
        Some(t) => tree_ids(t),
        None => Multiset::empty(),
    }
}

/// The ids of every tree held in the slots.
pub open spec fn slot_ids(s: Seq<Option<Model>>) -> Multiset<i32>
    decreases s.len(),
{
    if s.len() == 0 {
        Multiset::empty()
    } else {
        slot_ids(s.drop_last()).add(opt_ids(s.last()))
    }
}

proof fn lemma_slot_ids_update(s: Seq<Option<Model>>, i: int, v: Option<Model>)
    requires
        0 <= i < s.len(),
    ensures
        slot_ids(s.update(i, v)).add(opt_ids(s[i])) == slot_ids(s).add(opt_ids(v)),
    decreases s.len(),
{
    broadcast use vstd::multiset::group_multiset_axioms;

    let u = s.update(i, v);
    let rest = slot_ids(s.drop_last());
    if i == s.len() - 1 {
        assert(u.drop_last() =~= s.drop_last());
        assert(u.last() == v);
        assert(slot_ids(u) == rest.add(opt_ids(v)));
        assert(slot_ids(s) == rest.add(opt_ids(s[i])));
        assert(slot_ids(u).add(opt_ids(s[i])) =~= slot_ids(s).add(opt_ids(v)));
    } else {
        lemma_slot_ids_update(s.drop_last(), i, v);
        assert(u.drop_last() =~= s.drop_last().update(i, v));
        assert(u.last() == s.last());
        let rest_u = slot_ids(s.drop_last().update(i, v));
        assert(slot_ids(u) == rest_u.add(opt_ids(s.last())));
        assert(slot_ids(s) == rest.add(opt_ids(s.last())));
        assert(rest_u.add(opt_ids(s[i])) == rest.add(opt_ids(v)));
        assert forall|x: i32|
            slot_ids(u).add(opt_ids(s[i])).count(x) == slot_ids(s).add(opt_ids(v)).count(x) by {
            assert(rest_u.add(opt_ids(s[i])).count(x) == rest.add(opt_ids(v)).count(x));
        }
        assert(slot_ids(u).add(opt_ids(s[i])) =~= slot_ids(s).add(opt_ids(v)));
    }
}

proof fn lemma_tree_ids_push(t: Model, c: Seq<Model>, x: Model)
    requires
        t.children@ == c.push(x),
    ensures
        forest_ids(t.children@) == forest_ids(c).add(tree_ids(x)),
{
    assert(c.push(x).drop_last() =~= c);
}


/// The index maps each id of `rows` to the kept row with that id.
pub open spec fn index_of_rows(index: Map<i32, usize>, rows: Seq<Model>) -> bool {
    &&& forall|k: int| 0 <= k < rows.len() ==> index.contains_key(#[trigger] rows[k].id)
    &&& forall|id: i32|
        #[trigger] index.contains_key(id) ==> {
            &&& kept(rows, index[id] as int)
            &&& rows[index[id] as int].id == id
        }
}

/// Every slot `k` that holds a tree holds one grown from the kept row `k`.
pub open spec fn slots_grown(rows: Seq<Model>, s: Seq<Option<Model>>) -> bool {
    &&& s.len() == rows.len()
    &&& forall|k: int|
        0 <= k < s.len() && (#[trigger] s[k]) is Some ==> {
            &&& kept(rows, k)
            &&& grown_from(rows, rows[k], s[k]->0)
        }
}

/// The slot that holds the parent of the tree in slot `i`, if that parent is still held
/// in a slot of its own.
pub open spec fn parent_slot(s: Seq<Option<Model>>, index: Map<i32, usize>, i: int) -> Option<int> {
    match s[i] {
        Some(x) => match x.parent_id {
            Some(p) => if index.contains_key(p) && index[p] != i && index[p] < s.len()
                && s[index[p] as int] is Some {
                Some(index[p] as int)
            } else {
                None
            },
            None => None,
        },
        None => None,
    }
}

/// Takes the tree out of slot `i` and appends it to the children of its parent's tree,
/// if the parent is still held in a slot; otherwise the tree is dropped.
fn attach_to_parent(slots: &mut Vec<Option<Model>>, index: &HashMap<i32, usize>, i: usize) -> (attached:
    bool)
    requires
        i < old(slots).len(),
        old(slots)@[i as int] is Some,
    ensures
        final(slots)@.len() == old(slots)@.len(),
        attached == parent_slot(old(slots)@, index@, i as int) is Some,
        match parent_slot(old(slots)@, index@, i as int) {
            Some(j) => {
                let p = old(slots)@[j]->0;
                &&& final(slots)@[j] matches Some(q) && same_record(p, q) && q.children@
                    == p.children@.push(old(slots)@[i as int]->0)
                &&& final(slots)@ == old(slots)@.update(i as int, None).update(j, final(slots)@[j])
            },
            None => final(slots)@ == old(slots)@.update(i as int, None),
        },
{
    let x = slots[i].take().unwrap();
    match x.parent_id {
        Some(pid) => match index.get(&pid) {
            Some(j) => {
                let j = *j;
                if j < slots.len() && slots[j].is_some() {
                    let mut p = slots[j].take().unwrap();
                    p.children.push(x);
                    slots[j] = Some(p);
                    true
                } else {
                    false
                }
            },
            None => false,
        },
        None => false,
    }
}

/// What an attachment does to the slots: the trees stay grown from their rows, and
/// the ids held are kept, but for those of a dropped tree.
proof fn lemma_attach(
    rows: Seq<Model>,
    index: Map<i32, usize>,
    s: Seq<Option<Model>>,
    s2: Seq<Option<Model>>,
    i: int,
    q: Option<Model>,
)
    requires
        slots_grown(rows, s),
        index_of_rows(index, rows),
        0 <= i < s.len(),
        s[i] is Some,
        match parent_slot(s, index, i) {
            Some(j) => {
                let p = s[j]->0;
                &&& q matches Some(qq) && same_record(p, qq) && qq.children@ == p.children@.push(
                    s[i]->0,
                )
                &&& s2 == s.update(i, None).update(j, q)
            },
            None => s2 == s.update(i, None),
        },
    ensures
        slots_grown(rows, s2),
        parent_slot(s, index, i) is Some ==> slot_ids(s2) == slot_ids(s),
        parent_slot(s, index, i) is None ==> slot_ids(s2).add(opt_ids(s[i])) == slot_ids(s),
{
    broadcast use vstd::multiset::group_multiset_axioms;

    let x = s[i]->0;
    let s1 = s.update(i, None);
    lemma_slot_ids_update(s, i, None);
    assert(slot_ids(s1).add(opt_ids(s[i])) =~= slot_ids(s));
    assert(grown(rows, x)) by {
        assert(kept(rows, i) && grown_from(rows, rows[i], x));
    }
    match parent_slot(s, index, i) {
        Some(j) => {
            let p = s[j]->0;
            let qq = q->0;
            let r = rows[j];
            assert(kept(rows, j) && grown_from(rows, r, p));
            let pid = x.parent_id->0;
            assert(index.contains_key(pid));
            assert(p.id == pid);
            let old_len = p.children@.len();
            assert(qq.children@.subrange(0, r.children@.len() as int) =~= r.children@) by {
                assert(p.children@.subrange(0, r.children@.len() as int) == r.children@);
            }
            assert forall|k: int| r.children@.len() <= k < qq.children@.len() implies {
                &&& (#[trigger] qq.children@[k]).parent_id == Some(qq.id)
                &&& grown(rows, qq.children@[k])
            } by {
                if k < old_len {
                    assert(qq.children@[k] == p.children@[k]);
                } else {
                    assert(qq.children@[k] == x);
                }
            }
            assert(grown_from(rows, r, qq));
            lemma_slot_ids_update(s1, j, q);
            lemma_tree_ids_push(qq, p.children@, x);
            assert(tree_ids(qq) =~= tree_ids(p).add(tree_ids(x)));
            assert(s1[j] == s[j]);
            assert(slot_ids(s2).add(tree_ids(p)) == slot_ids(s1).add(tree_ids(qq)));
            assert forall|v: i32| #[trigger] slot_ids(s2).count(v) == slot_ids(s).count(v) by {
                assert(slot_ids(s2).add(tree_ids(p)).count(v) == slot_ids(s1).add(tree_ids(qq)).count(v));
                assert(slot_ids(s1).add(opt_ids(s[i])).count(v) == slot_ids(s).count(v));
            }
            assert(slot_ids(s2) =~= slot_ids(s));
            assert forall|k: int|
                0 <= k < s2.len() && (#[trigger] s2[k]) is Some implies {
                &&& kept(rows, k)
                &&& grown_from(rows, rows[k], s2[k]->0)
            } by {
                if k != j {
                    assert(s2[k] == s[k]);
                }
            }
        },
        None => {
            assert forall|k: int|
                0 <= k < s2.len() && (#[trigger] s2[k]) is Some implies {
                &&& kept(rows, k)
                &&& grown_from(rows, rows[k], s2[k]->0)
            } by {
                assert(s2[k] == s[k]);
            }
        },
    }
}


/// A directory below the one the tree is built for: processed in the directory pass.
pub open spec fn below_root(r: Model, path: Seq<char>) -> bool {
    r.node_type == NodeType::Directory && r.path@ != path
}

/// The slots that the file pass has not emptied yet when it stands at row `i`.
pub open spec fn held_in_file_pass(rows: Seq<Model>, s: Seq<Option<Model>>, i: int) -> bool {
    forall|k: int|
        0 <= k < rows.len() ==> ((#[trigger] s[k]) is Some <==> kept(rows, k) && !(
        rows[k].node_type == NodeType::File && k < i))
}

/// The directory pass has handled row `k` when it stands at depth `d` and row `i`.
pub open spec fn dir_done(
    rows: Seq<Model>,
    depths: Seq<usize>,
    path: Seq<char>,
    k: int,
    d: int,
    i: int,
) -> bool {
    below_root(rows[k], path) && (depths[k] > d || (depths[k] == d && k >= i))
}

/// The slots that the directory pass has not emptied yet at depth `d` and row `i`.
pub open spec fn held_in_dir_pass(
    rows: Seq<Model>,
    depths: Seq<usize>,
    path: Seq<char>,
    s: Seq<Option<Model>>,
    d: int,
    i: int,
) -> bool {
    forall|k: int|
        0 <= k < rows.len() ==> ((#[trigger] s[k]) is Some <==> kept(rows, k)
            && rows[k].node_type == NodeType::Directory && !dir_done(rows, depths, path, k, d, i))
}

proof fn lemma_kept_unique(rows: Seq<Model>, a: int, b: int)
    requires
        kept(rows, a),
        kept(rows, b),
        rows[a].id == rows[b].id,
    ensures
        a == b,
{
}

/// Row `j` is a kept directory that row `i` names as its parent, and lies higher than
/// `i` where both are directories below the root: the link along which the passes
/// attach `i`.
pub open spec fn parent_link(rows: Seq<Model>, path: Seq<char>, i: int, j: int) -> bool {
    kept(rows, j) && parent_row(rows, path, i, j)
}

/// Row `i` is row `k`, or a kept row other than a directory at `path` whose parent
/// link leads to a row that reaches `k` within `n - 1` more links.
pub open spec fn reaches(rows: Seq<Model>, path: Seq<char>, i: int, k: int, n: nat) -> bool
    decreases n,
{
    if i == k {
        true
    } else if n == 0 {
        false
    } else {
        &&& kept(rows, i)
        &&& !is_root_dir(rows[i], path)
        &&& exists|j: int| parent_link(rows, path, i, j) && reaches(rows, path, j, k, (n - 1) as nat)
    }
}

/// The ids of the rows (with the children they came with) whose home is slot `k`.
spec fn home_ids(rows: Seq<Model>, home: Seq<int>, k: int) -> Multiset<i32>
    decreases rows.len(),
{
    if rows.len() == 0 {
        Multiset::empty()
    } else {
        home_ids(rows.drop_last(), home.drop_last(), k).add(
            if home.last() == k {
                tree_ids(rows.last())
            } else {
                Multiset::empty()
            },
        )
    }
}

/// Every row whose home was slot `a` now lives in slot `b`.
spec fn relabel(home: Seq<int>, a: int, b: int) -> Seq<int> {
    Seq::new(home.len(), |m: int| if home[m] == a { b } else { home[m] })
}

/// Where each row lives: `home[m]` is the slot whose tree holds the node of row `m`,
/// or -1 if that node is held nowhere. A held slot is its own home and holds the
/// rows whose home it is, and a taken row lives where its parent link leads.
spec fn homes_ok(rows: Seq<Model>, path: Seq<char>, s: Seq<Option<Model>>, home: Seq<int>) -> bool {
    &&& home.len() == rows.len()
    &&& s.len() == rows.len()
    &&& forall|m: int| 0 <= m < rows.len() ==> -1 <= #[trigger] home[m] < rows.len()
    &&& forall|k: int|
        0 <= k < rows.len() && (#[trigger] s[k]) is Some ==> home[k] == k && opt_ids(s[k])
            == home_ids(rows, home, k)
    &&& forall|i: int, j: int|
        #![trigger parent_link(rows, path, i, j)]
        kept(rows, i) && s[i] is None && parent_link(rows, path, i, j) ==> home[i] == home[j]
}

proof fn lemma_relabel(rows: Seq<Model>, home: Seq<int>, a: int, b: int, c: int)
    requires
        rows.len() == home.len(),
        a != b,
    ensures
        c == b ==> home_ids(rows, relabel(home, a, b), c) == home_ids(rows, home, b).add(
            home_ids(rows, home, a),
        ),
        c != a && c != b ==> home_ids(rows, relabel(home, a, b), c) == home_ids(rows, home, c),
    decreases rows.len(),
{
    broadcast use vstd::multiset::group_multiset_axioms;

    if rows.len() > 0 {
        let h2 = relabel(home, a, b);
        lemma_relabel(rows.drop_last(), home.drop_last(), a, b, c);
        assert(h2.drop_last() =~= relabel(home.drop_last(), a, b));
        assert(home_ids(rows, h2, c) =~= home_ids(rows.drop_last(), h2.drop_last(), c).add(
            if h2.last() == c {
                tree_ids(rows.last())
            } else {
                Multiset::empty()
            },
        ));
        if c == b {
            assert(home_ids(rows, h2, c) =~= home_ids(rows, home, b).add(home_ids(rows, home, a)));
        } else if c != a {
            assert(home_ids(rows, h2, c) =~= home_ids(rows, home, c));
        }
    }
}

proof fn lemma_home_contains(rows: Seq<Model>, home: Seq<int>, i: int, k: int)
    requires
        rows.len() == home.len(),
        0 <= i < rows.len(),
        home[i] == k,
    ensures
        tree_ids(rows[i]).subset_of(home_ids(rows, home, k)),
    decreases rows.len(),
{
    broadcast use vstd::multiset::group_multiset_axioms;

    if i < rows.len() - 1 {
        lemma_home_contains(rows.drop_last(), home.drop_last(), i, k);
    }
}

proof fn lemma_home_single(rows: Seq<Model>, home: Seq<int>, k: int)
    requires
        rows.len() == home.len(),
        0 <= k < rows.len(),
        home[k] == k,
        forall|m: int| 0 <= m < rows.len() && m != k ==> #[trigger] home[m] != k,
    ensures
        home_ids(rows, home, k) == tree_ids(rows[k]),
    decreases rows.len(),
{
    broadcast use vstd::multiset::group_multiset_axioms;

    if k < rows.len() - 1 {
        lemma_home_single(rows.drop_last(), home.drop_last(), k);
        assert(home_ids(rows, home, k) =~= tree_ids(rows[k]));
    } else {
        lemma_home_none(rows.drop_last(), home.drop_last(), k);
        assert(home_ids(rows, home, k) =~= tree_ids(rows[k]));
    }
}

proof fn lemma_home_none(rows: Seq<Model>, home: Seq<int>, k: int)
    requires
        rows.len() == home.len(),
        forall|m: int| 0 <= m < rows.len() ==> #[trigger] home[m] != k,
    ensures
        home_ids(rows, home, k) == Multiset::<i32>::empty(),
    decreases rows.len(),
{
    broadcast use vstd::multiset::group_multiset_axioms;

    if rows.len() > 0 {
        lemma_home_none(rows.drop_last(), home.drop_last(), k);
        assert(home_ids(rows, home, k) =~= Multiset::<i32>::empty());
    }
}

/// A row whose parent link leads to a row still held in a slot gets attached there.
proof fn lemma_link_attaches(
    rows: Seq<Model>,
    path: Seq<char>,
    index: Map<i32, usize>,
    s: Seq<Option<Model>>,
    i: int,
    j: int,
)
    requires
        index_of_rows(index, rows),
        slots_grown(rows, s),
        0 <= i < s.len(),
        s[i] is Some,
        parent_link(rows, path, i, j),
        j != i,
        s[j] is Some,
    ensures
        parent_slot(s, index, i) == Some(j),
{
    let pid = rows[j].id;
    assert(index.contains_key(pid));
    let v = index[pid] as int;
    assert(rows[v].id == pid);
    lemma_kept_unique(rows, v, j);
    assert(s[i]->0.parent_id == rows[i].parent_id);
}

/// What an attachment does to where the rows live.
proof fn lemma_attach_homes(
    rows: Seq<Model>,
    path: Seq<char>,
    index: Map<i32, usize>,
    s: Seq<Option<Model>>,
    s2: Seq<Option<Model>>,
    i: int,
    q: Option<Model>,
    home: Seq<int>,
) -> (home2: Seq<int>)
    requires
        slots_grown(rows, s),
        index_of_rows(index, rows),
        homes_ok(rows, path, s, home),
        0 <= i < s.len(),
        s[i] is Some,
        forall|j: int| parent_link(rows, path, i, j) ==> j != i && (#[trigger] s[j]) is Some,
        match parent_slot(s, index, i) {
            Some(j) => {
                let p = s[j]->0;
                &&& q matches Some(qq) && same_record(p, qq) && qq.children@ == p.children@.push(
                    s[i]->0,
                )
                &&& s2 == s.update(i, None).update(j, q)
            },
            None => s2 == s.update(i, None),
        },
    ensures
        homes_ok(rows, path, s2, home2),
{
    broadcast use vstd::multiset::group_multiset_axioms;

    let x = s[i]->0;
    let target = match parent_slot(s, index, i) {
        Some(j) => j,
        None => -1,
    };
    let home2 = relabel(home, i, target);
    assert forall|k: int|
        0 <= k < rows.len() && (#[trigger] s2[k]) is Some implies home2[k] == k && opt_ids(s2[k])
        == home_ids(rows, home2, k) by {
        lemma_relabel(rows, home, i, target, k);
        if k == target {
            let p = s[k]->0;
            let qq = q->0;
            lemma_tree_ids_push(qq, p.children@, x);
            assert(tree_ids(qq) =~= tree_ids(p).add(tree_ids(x)));
        } else {
            assert(s2[k] == s[k]);
        }
    }
    assert forall|a: int, b: int|
        #![trigger parent_link(rows, path, a, b)]
        kept(rows, a) && s2[a] is None && parent_link(rows, path, a, b) implies home2[a]
        == home2[b] by {
        if a == i {
            assert(b != i && s[b] is Some);
            lemma_link_attaches(rows, path, index, s, i, b);
        } else {
            assert(s[a] is None);
        }
    }
    home2
}

/// Builds the id index, the depth of every row and the greatest depth.
fn index_rows(rows: &Vec<Model>) -> (res: (HashMap<i32, usize>, Vec<usize>, usize))
    ensures
        index_of_rows(res.0@, rows@),
        res.1@.len() == rows@.len(),
        forall|k: int|
            0 <= k < rows@.len() ==> (#[trigger] res.1@[k]) == slash_count(rows@[k].path@)
                && res.1@[k] <= res.2,
{
    let n = rows.len();
    let mut index: HashMap<i32, usize> = HashMap::new();
    let mut depths: Vec<usize> = Vec::new();
    let mut max_depth: usize = 0;
    let mut i: usize = 0;
    while i < n
        invariant
            n == rows@.len(),
            i <= n,
            depths@.len() == i,
            forall|k: int|
                0 <= k < i ==> (#[trigger] depths@[k]) == slash_count(rows@[k].path@) && depths@[k]
                    <= max_depth,
            forall|k: int| 0 <= k < i ==> index@.contains_key(#[trigger] rows@[k].id),
            forall|id: i32|
                #[trigger] index@.contains_key(id) ==> {
                    &&& index@[id] < i
                    &&& rows@[index@[id] as int].id == id
                    &&& forall|j: int| index@[id] < j < i ==> rows@[j].id != id
                },
        decreases n - i,
    {
        let d = path_depth(rows[i].path.as_str());
        index.insert(rows[i].id, i);
        depths.push(d);
        if d > max_depth {
            max_depth = d;
        }
        i += 1;
    }
    (index, depths, max_depth)
}

/// Moves the kept rows into slots of their own; the other slots are empty.
fn into_slots(rows: Vec<Model>, index: &HashMap<i32, usize>) -> (slots: Vec<Option<Model>>)
    requires
        index_of_rows(index@, rows@),
    ensures
        slots@.len() == rows@.len(),
        forall|k: int|
            0 <= k < rows@.len() ==> (#[trigger] slots@[k]) == if kept(rows@, k) {
                Some(rows@[k])
            } else {
                None
            },
{
    let ghost orig = rows@;
    let n = rows.len();
    let mut slots: Vec<Option<Model>> = Vec::new();
    let mut k: usize = 0;
    for r in it: rows
        invariant
            it.seq() == orig,
            n == orig.len(),
            index_of_rows(index@, orig),
            k == it.index(),
            slots@.len() == k,
            forall|m: int|
                0 <= m < k ==> (#[trigger] slots@[m]) == if kept(orig, m) {
                    Some(orig[m])
                } else {
                    None
                },
    {
        assert(r == orig[k as int]);
        let keep = match index.get(&r.id) {
            Some(j) => *j == k,
            None => false,
        };
        proof {
            assert(index@.contains_key(orig[k as int].id));
            let v = index@[orig[k as int].id] as int;
            if kept(orig, k as int) {
                lemma_kept_unique(orig, v, k as int);
            }
        }
        if keep {
            slots.push(Some(r));
        } else {
            slots.push(None);
        }
        k += 1;
    }
    slots
}


/// In linked rows every row is the last with its id.
proof fn lemma_linked_all_kept(rows: Seq<Model>, path: Seq<char>)
    requires
        linked(rows, path),
    ensures
        forall|k: int| 0 <= k < rows.len() ==> kept(rows, k),
{
    assert forall|k: int| 0 <= k < rows.len() implies kept(rows, k) by {
        assert forall|j: int| k < j < rows.len() implies rows[j].id != rows[k].id by {
            assert(j != k);
        }
    }
}

/// The file pass: every file row, in row order, is taken out of its slot and
/// attached to its parent if the parent is still held in a slot.
fn attach_files(
    slots: &mut Vec<Option<Model>>,
    index: &HashMap<i32, usize>,
    Ghost(rows): Ghost<Seq<Model>>,
    Ghost(path): Ghost<Seq<char>>,
    Ghost(home0): Ghost<Seq<int>>,
) -> (res: Ghost<(Multiset<i32>, Seq<int>)>)
    requires
        index_of_rows(index@, rows),
        slots_grown(rows, old(slots)@),
        held_in_file_pass(rows, old(slots)@, 0),
        homes_ok(rows, path, old(slots)@, home0),
    ensures
        slots_grown(rows, final(slots)@),
        held_in_file_pass(rows, final(slots)@, rows.len() as int),
        slot_ids(final(slots)@).add(res@.0) == slot_ids(old(slots)@),
        linked(rows, path) ==> res@.0 == Multiset::<i32>::empty(),
        homes_ok(rows, path, final(slots)@, res@.1),
{
    broadcast use vstd::multiset::group_multiset_axioms;

    let n = slots.len();
    let ghost init = slots@;
    let ghost mut dropped = Multiset::<i32>::empty();
    let ghost mut home = home0;
    let mut i: usize = 0;
    assert(slot_ids(slots@).add(dropped) =~= slot_ids(init));
    while i < n
        invariant
            n == slots@.len(),
            n == rows.len(),
            i <= n,
            index_of_rows(index@, rows),
            slots_grown(rows, slots@),
            held_in_file_pass(rows, slots@, i as int),
            homes_ok(rows, path, slots@, home),
            slot_ids(slots@).add(dropped) == slot_ids(init),
            linked(rows, path) ==> dropped == Multiset::<i32>::empty(),
        decreases n - i,
    {
        let is_file = match &slots[i] {
            Some(t) => t.node_type == NodeType::File,
            None => false,
        };
        if is_file {
            let ghost s = slots@;
            proof {
                assert(same_record(rows[i as int], s[i as int]->0));
                assert forall|j: int| parent_link(rows, path, i as int, j) implies j != i && (
                #[trigger] s[j]) is Some by {}
                if linked(rows, path) {
                    lemma_linked_all_kept(rows, path);
                    let j = choose|j: int| parent_row(rows, path, i as int, j);
                    assert(parent_link(rows, path, i as int, j));
                    lemma_link_attaches(rows, path, index@, s, i as int, j);
                }
            }
            let _attached = attach_to_parent(slots, index, i);
            proof {
                let q = match parent_slot(s, index@, i as int) {
                    Some(j) => slots@[j],
                    None => None,
                };
                lemma_attach(rows, index@, s, slots@, i as int, q);
                home = lemma_attach_homes(rows, path, index@, s, slots@, i as int, q, home);
                if parent_slot(s, index@, i as int) is None {
                    let old_dropped = dropped;
                    dropped = dropped.add(opt_ids(s[i as int]));
                    assert(slot_ids(slots@).add(dropped) =~= slot_ids(s).add(old_dropped));
                }
                assert forall|k: int| 0 <= k < rows.len() implies ((#[trigger] slots@[k]) is Some
                    <==> kept(rows, k) && !(rows[k].node_type == NodeType::File && k < i + 1)) by {
                    if k != i {
                        assert(s[k] is Some <==> slots@[k] is Some);
                    }
                }
            }
        }
        i += 1;
    }
    Ghost((dropped, home))
}


/// The directory pass: directories below the root are taken out of their slots,
/// deepest first and, at one depth, from the last row to the first, and attached to
/// their parent if the parent is still held in a slot.
fn attach_directories(
    slots: &mut Vec<Option<Model>>,
    index: &HashMap<i32, usize>,
    depths: &Vec<usize>,
    max_depth: usize,
    path: &String,
    Ghost(rows): Ghost<Seq<Model>>,
    Ghost(home0): Ghost<Seq<int>>,
) -> (res: Ghost<(Multiset<i32>, Seq<int>)>)
    requires
        homes_ok(rows, path@, old(slots)@, home0),
        index_of_rows(index@, rows),
        slots_grown(rows, old(slots)@),
        held_in_file_pass(rows, old(slots)@, rows.len() as int),
        depths@.len() == rows.len(),
        forall|k: int|
            0 <= k < rows.len() ==> (#[trigger] depths@[k]) == slash_count(rows[k].path@)
                && depths@[k] <= max_depth,
    ensures
        slots_grown(rows, final(slots)@),
        forall|k: int|
            0 <= k < rows.len() ==> ((#[trigger] final(slots)@[k]) is Some <==> kept(rows, k)
                && is_root_dir(rows[k], path@)),
        slot_ids(final(slots)@).add(res@.0) == slot_ids(old(slots)@),
        linked(rows, path@) ==> res@.0 == Multiset::<i32>::empty(),
        homes_ok(rows, path@, final(slots)@, res@.1),
{
    broadcast use vstd::multiset::group_multiset_axioms;

    let n = slots.len();
    let ghost init = slots@;
    let ghost mut dropped = Multiset::<i32>::empty();
    let ghost mut home = home0;
    assert(slot_ids(slots@).add(dropped) =~= slot_ids(init));
    let mut d: usize = max_depth;
    assert forall|k: int| 0 <= k < rows.len() implies ((#[trigger] slots@[k]) is Some <==> kept(
        rows,
        k,
    ) && rows[k].node_type == NodeType::Directory && !dir_done(
        rows,
        depths@,
        path@,
        k,
        d as int,
        n as int,
    )) by {}
    loop
        invariant_except_break
            held_in_dir_pass(rows, depths@, path@, slots@, d as int, n as int),
        invariant
            n == slots@.len(),
            n == rows.len(),
            d <= max_depth,
            depths@.len() == rows.len(),
            forall|k: int|
                0 <= k < rows.len() ==> (#[trigger] depths@[k]) == slash_count(rows[k].path@)
                    && depths@[k] <= max_depth,
            index_of_rows(index@, rows),
            slots_grown(rows, slots@),
            homes_ok(rows, path@, slots@, home),
            slot_ids(slots@).add(dropped) == slot_ids(init),
            linked(rows, path@) ==> dropped == Multiset::<i32>::empty(),
        ensures
            held_in_dir_pass(rows, depths@, path@, slots@, 0, 0),
        decreases d,
    {
        let mut i: usize = n;
        while i > 0
            invariant
                n == slots@.len(),
                n == rows.len(),
                i <= n,
                depths@.len() == rows.len(),
                forall|k: int|
                    0 <= k < rows.len() ==> (#[trigger] depths@[k]) == slash_count(rows[k].path@),
                index_of_rows(index@, rows),
                slots_grown(rows, slots@),
                homes_ok(rows, path@, slots@, home),
                held_in_dir_pass(rows, depths@, path@, slots@, d as int, i as int),
                slot_ids(slots@).add(dropped) == slot_ids(init),
                linked(rows, path@) ==> dropped == Multiset::<i32>::empty(),
            decreases i,
        {
            i -= 1;
            let take = match &slots[i] {
                Some(t) => t.node_type == NodeType::Directory && !(t.path == *path) && depths[i]
                    == d,
                None => false,
            };
            if take {
                let ghost s = slots@;
                proof {
                    assert(below_root(rows[i as int], path@));
                    assert forall|j: int| parent_link(rows, path@, i as int, j) implies j != i && (
                    #[trigger] s[j]) is Some by {
                        assert(!dir_done(rows, depths@, path@, j, d as int, i + 1));
                    }
                    if linked(rows, path@) {
                        lemma_linked_all_kept(rows, path@);
                        let j = choose|j: int| parent_row(rows, path@, i as int, j);
                        assert(parent_link(rows, path@, i as int, j));
                        lemma_link_attaches(rows, path@, index@, s, i as int, j);
                    }
                }
                let _attached = attach_to_parent(slots, index, i);
                proof {
                    let q = match parent_slot(s, index@, i as int) {
                        Some(j) => slots@[j],
                        None => None,
                    };
                    lemma_attach(rows, index@, s, slots@, i as int, q);
                    home = lemma_attach_homes(rows, path@, index@, s, slots@, i as int, q, home);
                    if parent_slot(s, index@, i as int) is None {
                        let old_dropped = dropped;
                        dropped = dropped.add(opt_ids(s[i as int]));
                        assert(slot_ids(slots@).add(dropped) =~= slot_ids(s).add(old_dropped));
                    }
                    assert forall|k: int| 0 <= k < rows.len() implies ((#[trigger] slots@[k]) is Some
                        <==> kept(rows, k) && rows[k].node_type == NodeType::Directory && !dir_done(
                        rows,
                        depths@,
                        path@,
                        k,
                        d as int,
                        i as int,
                    )) by {
                        if k != i {
                            assert(s[k] is Some <==> slots@[k] is Some);
                        }
                    }
                }
            } else {
                proof {
                    assert forall|k: int| 0 <= k < rows.len() implies ((#[trigger] slots@[k]) is Some
                        <==> kept(rows, k) && rows[k].node_type == NodeType::Directory && !dir_done(
                        rows,
                        depths@,
                        path@,
                        k,
                        d as int,
                        i as int,
                    )) by {
                        if k == i && slots@[k] is Some {
                            assert(same_record(rows[k], slots@[k]->0));
                        }
                    }
                }
            }
        }
        if d == 0 {
            break;
        }
        d -= 1;
        assert forall|k: int| 0 <= k < rows.len() implies ((#[trigger] slots@[k]) is Some <==> kept(
            rows,
            k,
        ) && rows[k].node_type == NodeType::Directory && !dir_done(
            rows,
            depths@,
            path@,
            k,
            d as int,
            n as int,
        )) by {
            assert(dir_done(rows, depths@, path@, k, d as int, n as int) == dir_done(
                rows,
                depths@,
                path@,
                k,
                d + 1,
                0,
            ));
        }
    }
    assert forall|k: int| 0 <= k < rows.len() implies ((#[trigger] slots@[k]) is Some <==> kept(
        rows,
        k,
    ) && is_root_dir(rows[k], path@)) by {
        assert(slots@[k] is Some <==> kept(rows, k) && rows[k].node_type == NodeType::Directory
            && !dir_done(rows, depths@, path@, k, 0, 0));
    }
    Ghost((dropped, home))
}


proof fn lemma_single_slot(s: Seq<Option<Model>>, r: int)
    requires
        0 <= r < s.len(),
        forall|k: int| 0 <= k < s.len() && k != r ==> (#[trigger] s[k]) is None,
    ensures
        slot_ids(s) == opt_ids(s[r]),
    decreases s.len(),
{
    broadcast use vstd::multiset::group_multiset_axioms;

    if r == s.len() - 1 {
        lemma_no_slots(s.drop_last());
        assert(slot_ids(s) =~= opt_ids(s[r]));
    } else {
        lemma_single_slot(s.drop_last(), r);
        assert(s.last() is None);
        assert(slot_ids(s) =~= opt_ids(s[r]));
    }
}

proof fn lemma_slot_in_slots(s: Seq<Option<Model>>, k: int)
    requires
        0 <= k < s.len(),
    ensures
        opt_ids(s[k]).subset_of(slot_ids(s)),
    decreases s.len(),
{
    broadcast use vstd::multiset::group_multiset_axioms;

    if k < s.len() - 1 {
        lemma_slot_in_slots(s.drop_last(), k);
        assert(s.drop_last()[k] == s[k]);
    }
}

proof fn lemma_no_slots(s: Seq<Option<Model>>)
    requires
        forall|k: int| 0 <= k < s.len() ==> (#[trigger] s[k]) is None,
    ensures
        slot_ids(s) == Multiset::<i32>::empty(),
    decreases s.len(),
{
    broadcast use vstd::multiset::group_multiset_axioms;

    if s.len() > 0 {
        lemma_no_slots(s.drop_last());
        assert(s.last() is None);
        assert(slot_ids(s) =~= Multiset::<i32>::empty());
    }
}

/// Slots that hold each row, childless, hold the ids of the rows.
proof fn lemma_full_slots_ids(rows: Seq<Model>, s: Seq<Option<Model>>)
    requires
        s.len() == rows.len(),
        forall|k: int| 0 <= k < s.len() ==> (#[trigger] s[k]) == Some(rows[k]),
        forall|k: int| 0 <= k < rows.len() ==> (#[trigger] rows[k]).children@.len() == 0,
    ensures
        slot_ids(s) == row_ids(rows),
    decreases s.len(),
{
    broadcast use vstd::multiset::group_multiset_axioms;

    if s.len() > 0 {
        lemma_full_slots_ids(rows.drop_last(), s.drop_last());
        let last = rows.last();
        assert(s.last() == Some(last));
        assert(last.children@ =~= Seq::<Model>::empty());
        assert(forest_ids(last.children@) =~= Multiset::<i32>::empty());
        assert(tree_ids(last) =~= Multiset::singleton(last.id));
        assert(slot_ids(s) =~= row_ids(rows));
    }
}

/// Following parent links from a row that reaches the held slot `k` ends in that
/// slot's tree, once every row but the directories at `path` has been taken.
proof fn lemma_reaches_home(
    rows: Seq<Model>,
    path: Seq<char>,
    s: Seq<Option<Model>>,
    home: Seq<int>,
    i: int,
    k: int,
    n: nat,
)
    requires
        homes_ok(rows, path, s, home),
        0 <= k < rows.len(),
        s[k] is Some,
        forall|m: int|
            0 <= m < rows.len() && kept(rows, m) && !is_root_dir(rows[m], path) ==> (
            #[trigger] s[m]) is None,
        reaches(rows, path, i, k, n),
    ensures
        0 <= i < rows.len(),
        home[i] == k,
    decreases n,
{
    if i != k {
        let j = choose|j: int| parent_link(rows, path, i, j) && reaches(rows, path, j, k, (n - 1) as nat);
        lemma_reaches_home(rows, path, s, home, j, k, (n - 1) as nat);
        assert(s[i] is None);
        assert(home[i] == home[j]);
    }
}

/// Assembles the stored rows of a directory and the nodes below it into a tree,
/// and returns the directory at `path` with every node attached below its parent.
///
/// Rows are keyed by id, the last row with an id winning. Files are attached to
/// their parents first, then directories other than those at `path`, deepest
/// first; a node is attached only while its parent is still at the top, and a
/// node whose parent is not (any more) at the top is left out. Every kept row
/// whose chain of parent links leads to the returned directory is in its tree.
pub fn build_tree(rows: Vec<Model>, path: &String) -> (tree: Option<Model>)
    ensures
        tree is Some <==> exists|i: int| kept(rows@, i) && is_root_dir(rows@[i], path@),
        tree matches Some(t) ==> is_root_dir(t, path@) && grown(rows@, t),
        tree matches Some(t) ==> tree_ids(t).subset_of(slot_ids(kept_slots(rows@))),
        linked(rows@, path@) ==> (tree matches Some(t) && tree_ids(t) == slot_ids(
            kept_slots(rows@),
        )),
        listing(rows@, path@) ==> (tree matches Some(t) && tree_ids(t) == row_ids(rows@)),
        tree matches Some(t) ==> forall|i: int, k: int, n: nat|
            kept(rows@, k) && rows@[k].id == t.id && #[trigger] reaches(rows@, path@, i, k, n)
                ==> tree_ids(t).count(rows@[i].id) > 0,
{
    broadcast use vstd::multiset::group_multiset_axioms;

    let ghost orig = rows@;
    let n = rows.len();
    let (index, depths, max_depth) = index_rows(&rows);
    let mut slots = into_slots(rows, &index);
    let ghost init = slots@;
    proof {
        assert forall|k: int| 0 <= k < n && (#[trigger] init[k]) is Some implies {
            &&& kept(orig, k)
            &&& grown_from(orig, orig[k], init[k]->0)
        } by {
            assert(orig[k].children@.subrange(0, orig[k].children@.len() as int)
                =~= orig[k].children@);
        }
    }
    let ghost home0 = Seq::new(n as nat, |m: int| if kept(orig, m) { m } else { -1 });
    proof {
        assert forall|k: int| 0 <= k < n && (#[trigger] init[k]) is Some implies home0[k] == k
            && opt_ids(init[k]) == home_ids(orig, home0, k) by {
            lemma_home_single(orig, home0, k);
        }
        assert(homes_ok(orig, path@, init, home0));
    }
    let Ghost(files_res) = attach_files(
        &mut slots,
        &index,
        Ghost(orig),
        Ghost(path@),
        Ghost(home0),
    );
    let ghost dropped_files = files_res.0;
    let ghost home1 = files_res.1;
    let ghost after_files = slots@;
    let Ghost(dirs_res) = attach_directories(
        &mut slots,
        &index,
        &depths,
        max_depth,
        path,
        Ghost(orig),
        Ghost(home1),
    );
    let ghost dropped_dirs = dirs_res.0;
    let ghost home = dirs_res.1;
    let mut k: usize = 0;
    while k < n
        invariant
            n == slots@.len(),
            n == orig.len(),
            k <= n,
            slots_grown(orig, slots@),
            forall|m: int|
                0 <= m < n ==> ((#[trigger] slots@[m]) is Some <==> kept(orig, m) && is_root_dir(
                    orig[m],
                    path@,
                )),
            forall|m: int| 0 <= m < k ==> (#[trigger] slots@[m]) is None,
            init.len() == n,
            orig == rows@,
            homes_ok(orig, path@, slots@, home),
            forall|m: int|
                0 <= m < n ==> (#[trigger] init[m]) == if kept(orig, m) {
                    Some(orig[m])
                } else {
                    None
                },
            slot_ids(slots@).add(dropped_dirs) == slot_ids(after_files),
            slot_ids(after_files).add(dropped_files) == slot_ids(init),
            linked(orig, path@) ==> dropped_files == Multiset::<i32>::empty()
                && dropped_dirs == Multiset::<i32>::empty(),
        decreases n - k,
    {
        let hit = match &slots[k] {
            Some(t) => t.path == *path,
            None => false,
        };
        if hit {
            let ghost fin = slots@;
            proof {
                let t = fin[k as int]->0;
                assert(kept(orig, k as int) && grown_from(orig, orig[k as int], t));
                assert(is_root_dir(orig[k as int], path@));
                assert(grown(orig, t));
                assert(is_root_dir(t, path@));
                assert forall|i: int, k2: int, m: nat|
                    kept(orig, k2) && orig[k2].id == t.id && #[trigger] reaches(
                        orig,
                        path@,
                        i,
                        k2,
                        m,
                    ) implies tree_ids(t).count(orig[i].id) > 0 by {
                    lemma_kept_unique(orig, k2, k as int);
                    lemma_reaches_home(orig, path@, fin, home, i, k as int, m);
                    lemma_home_contains(orig, home, i, k as int);
                    assert(tree_ids(orig[i]).count(orig[i].id) > 0);
                }
                lemma_slot_in_slots(fin, k as int);
                assert(init =~= kept_slots(orig));
                assert(tree_ids(t).subset_of(slot_ids(init))) by {
                    assert forall|v: i32| tree_ids(t).count(v) <= slot_ids(init).count(v) by {
                        assert(slot_ids(fin).add(dropped_dirs).count(v) == slot_ids(after_files).count(v));
                        assert(slot_ids(after_files).add(dropped_files).count(v) == slot_ids(init).count(v));
                    }
                }
                if linked(orig, path@) {
                    lemma_linked_all_kept(orig, path@);
                    assert forall|m: int| 0 <= m < n && m != k implies (#[trigger] fin[m]) is None by {
                        if fin[m] is Some {
                            assert(is_root_dir(orig[m], path@));
                        }
                    }
                    lemma_single_slot(fin, k as int);
                    assert(slot_ids(fin) =~= slot_ids(init));
                    if listing(orig, path@) {
                        assert forall|m: int| 0 <= m < n implies (#[trigger] init[m]) == Some(
                            orig[m],
                        ) by {
                            assert(kept(orig, m));
                        }
                        lemma_full_slots_ids(orig, init);
                    }
                }
            }
            return slots[k].take();
        }
        proof {
            if slots@[k as int] is Some {
                assert(same_record(orig[k as int], slots@[k as int]->0));
            }
        }
        k += 1;
    }
    proof {
        if linked(orig, path@) {
            let r = choose|r: int|
                0 <= r < orig.len() && is_root_dir(orig[r], path@) && forall|m: int|
                    0 <= m < orig.len() && is_root_dir(#[trigger] orig[m], path@) ==> m == r;
            lemma_linked_all_kept(orig, path@);
            assert(slots@[r] is Some);
        }
        assert forall|i: int| kept(orig, i) implies !is_root_dir(orig[i], path@) by {
            assert(slots@[i] is None);
        }
    }
    None
}

} // verus!
