//! What holds of the trees that the builder grows: which pids they hold,
//! and how often.

use vstd::prelude::*;
use crate::builder::{
    attach_from, children_from, down_tree, first_record, forest, grow_from, grown_tree, holds_pid,
    insert_root, is_live, latest_record, lemma_latest_record, parent_above, parent_key,
    record_pids, root_name, root_pids, root_pids_upto, root_tree, subtree, tree_above, up_tree, Slot,
};
use crate::process::{Info, Record, Tree};
use crate::search::{
    breadth_first, first_with_pid, forest_size, found_in, lemma_queue_step,
};
use crate::text::lemma_terminator_index;

verus! {

/// One where the pids are equal, zero where they differ.
pub open spec fn one_if(a: u32, b: u32) -> nat {
    if a == b {
        1
    } else {
        0
    }
}

/// The number of nodes of a tree that have the given pid.
pub open spec fn tree_count(t: Tree, pid: u32) -> nat
    decreases t,
{
    one_if(t.pid, pid) + forest_count(t.children, pid)
}

/// The number of nodes of a sequence of trees that have the given pid.
pub open spec fn forest_count(trees: Seq<Tree>, pid: u32) -> nat
    decreases trees,
{
    if trees.len() == 0 {
        0
    } else {
        forest_count(trees.drop_last(), pid) + tree_count(trees.last(), pid)
    }
}

/// No pid occurs twice in the tree.
pub open spec fn pids_distinct(t: Tree) -> bool {
    forall|pid: u32| tree_count(t, pid) <= 1
}

/// The counts of two forests put together add up.
pub proof fn lemma_forest_count_add(a: Seq<Tree>, b: Seq<Tree>, pid: u32)
    ensures
        forest_count(a + b, pid) == forest_count(a, pid) + forest_count(b, pid),
    decreases b.len(),
{
    if b.len() == 0 {
        assert(a + b =~= a);
    } else {
        lemma_forest_count_add(a, b.drop_last(), pid);
        assert((a + b).drop_last() =~= a + b.drop_last());
        assert((a + b).last() == b.last());
    }
}

/// The count of a forest of one tree is the count of the tree.
pub proof fn lemma_forest_count_one(t: Tree, pid: u32)
    ensures
        forest_count(seq![t], pid) == tree_count(t, pid),
{
    let one = seq![t];
    assert(one.drop_last() =~= Seq::<Tree>::empty());
    assert(one.last() == t);
    assert(forest_count(one.drop_last(), pid) == 0);
    assert(forest_count(one, pid) == forest_count(one.drop_last(), pid) + tree_count(
        one.last(),
        pid,
    ));
}

/// Every node but the first has its parent before it in the list.
pub open spec fn well_linked(arena: Seq<Slot>) -> bool {
    &&& arena.len() > 0
    &&& forall|k: int| 1 <= k < arena.len() ==> 0 <= (#[trigger] arena[k]).parent < k
}

/// The number of nodes at `j`, `j + 1`, .. of the list that have the given
/// pid.
pub open spec fn slot_count(arena: Seq<Slot>, pid: u32, j: int) -> nat
    decreases arena.len() - j,
{
    if j < 0 || j >= arena.len() {
        0
    } else {
        one_if(arena[j].pid, pid) + slot_count(arena, pid, j + 1)
    }
}

/// The count, over the nodes at `c`, `c + 1`, .. whose parent stands
/// before `j`, of the trees below them.
spec fn hanging_count(arena: Seq<Slot>, pid: u32, j: int, c: int) -> nat
    decreases arena.len() - c,
{
    if c < 0 || c >= arena.len() {
        0
    } else if arena[c].parent < j {
        tree_count(subtree(arena, c), pid) + hanging_count(arena, pid, j, c + 1)
    } else {
        hanging_count(arena, pid, j, c + 1)
    }
}

/// Moving the bound from `j` to `j + 1` adds the children of the node
/// at `j`.
proof fn lemma_hanging_split(arena: Seq<Slot>, pid: u32, j: int, c: int)
    requires
        0 <= j < c,
    ensures
        hanging_count(arena, pid, j + 1, c) == hanging_count(arena, pid, j, c) + forest_count(
            children_from(arena, j, c),
            pid,
        ),
    decreases arena.len() - c,
{
    if c < arena.len() {
        lemma_hanging_split(arena, pid, j, c + 1);
        if arena[c].parent == j {
            let rest = children_from(arena, j, c + 1);
            lemma_forest_count_add(seq![subtree(arena, c)], rest, pid);
            lemma_forest_count_one(subtree(arena, c), pid);
        }
    }
}

/// No node has its parent before the first node.
proof fn lemma_hanging_none(arena: Seq<Slot>, pid: u32, c: int)
    requires
        well_linked(arena),
        1 <= c,
    ensures
        hanging_count(arena, pid, 0, c) == 0,
    decreases arena.len() - c,
{
    if c < arena.len() {
        lemma_hanging_none(arena, pid, c + 1);
    }
}

/// The trees that hang from the nodes before `j` hold, together, what
/// the list holds from `j` on.
proof fn lemma_hanging_all(arena: Seq<Slot>, pid: u32, j: int)
    requires
        well_linked(arena),
        1 <= j <= arena.len(),
    ensures
        hanging_count(arena, pid, j, j) == slot_count(arena, pid, j),
    decreases arena.len() - j,
{
    if j < arena.len() {
        lemma_hanging_all(arena, pid, j + 1);
        lemma_hanging_split(arena, pid, j, j + 1);
    }
}

/// A tree that was put together from a well-linked list holds each pid as
/// often as the list does.
pub proof fn lemma_tree_counts_slots(arena: Seq<Slot>, pid: u32)
    requires
        well_linked(arena),
    ensures
        tree_count(subtree(arena, 0), pid) == slot_count(arena, pid, 0),
{
    lemma_hanging_all(arena, pid, 1);
    lemma_hanging_split(arena, pid, 0, 1);
    lemma_hanging_none(arena, pid, 1);
}


/// The node at `k` was made from a record that names the pid of the
/// node's parent as its parent key.
pub open spec fn made_from_record(s: Seq<Record>, adopt: bool, arena: Seq<Slot>, k: int) -> bool {
    exists|j: int|
        0 <= j < s.len() && (#[trigger] s[j]).pid == arena[k].pid && s[j].name == arena[k].name
            && parent_key(s, j, adopt) == Some(arena[arena[k].parent].pid)
}

/// The list is well linked, no two of its nodes have the same pid, and
/// every node but the first was made from a record.
pub open spec fn grown_soundly(s: Seq<Record>, adopt: bool, arena: Seq<Slot>) -> bool {
    &&& well_linked(arena)
    &&& forall|a: int, b: int|
        0 <= a < b < arena.len() ==> (#[trigger] arena[a]).pid != (#[trigger] arena[b]).pid
    &&& forall|k: int| 1 <= k < arena.len() ==> #[trigger] made_from_record(s, adopt, arena, k)
}

/// Record `j` is attached to the node at `h`, or was passed over because
/// its pid was there already: either way the list holds its pid.
pub open spec fn settled(s: Seq<Record>, adopt: bool, arena: Seq<Slot>, h: int, j: int) -> bool {
    parent_key(s, j, adopt) == Some(arena[h].pid) ==> holds_pid(arena, s[j].pid)
}

/// Every record is settled for each of the first `head` nodes.
pub open spec fn closed_upto(s: Seq<Record>, adopt: bool, arena: Seq<Slot>, head: int) -> bool {
    forall|h: int, j: int|
        0 <= h < head && h < arena.len() && 0 <= j < s.len() ==> #[trigger] settled(
            s,
            adopt,
            arena,
            h,
            j,
        )
}

/// `a` is the beginning of `b`.
pub open spec fn begins(a: Seq<Slot>, b: Seq<Slot>) -> bool {
    &&& a.len() <= b.len()
    &&& forall|k: int| 0 <= k < a.len() ==> #[trigger] b[k] == a[k]
}

/// What a list holds, a list that begins with it holds too.
proof fn lemma_holds_in_longer(a: Seq<Slot>, b: Seq<Slot>, pid: u32)
    requires
        begins(a, b),
        holds_pid(a, pid),
    ensures
        holds_pid(b, pid),
{
    let k = choose|k: int| 0 <= k < a.len() && (#[trigger] a[k]).pid == pid;
    assert(b[k].pid == pid);
}

/// Offering the records to a node keeps a list soundly grown, only adds
/// to its end, and settles every record that was offered.
proof fn lemma_attach(s: Seq<Record>, adopt: bool, arena: Seq<Slot>, head: int, j: int)
    requires
        grown_soundly(s, adopt, arena),
        0 <= head < arena.len(),
        0 <= j <= s.len(),
    ensures
        grown_soundly(s, adopt, attach_from(s, adopt, arena, head, j)),
        begins(arena, attach_from(s, adopt, arena, head, j)),
        forall|i: int|
            j <= i < s.len() ==> #[trigger] settled(
                s,
                adopt,
                attach_from(s, adopt, arena, head, j),
                head,
                i,
            ),
    decreases s.len() - j,
{
    let result = attach_from(s, adopt, arena, head, j);
    if j < s.len() {
        if parent_key(s, j, adopt) == Some(arena[head].pid) && !holds_pid(arena, s[j].pid) {
            let slot = Slot { pid: s[j].pid, name: s[j].name, parent: head };
            let next = arena.push(slot);
            assert forall|k: int| 1 <= k < next.len() implies #[trigger] made_from_record(
                s,
                adopt,
                next,
                k,
            ) by {
                if k < arena.len() {
                    assert(made_from_record(s, adopt, arena, k));
                    let r = choose|r: int|
                        0 <= r < s.len() && (#[trigger] s[r]).pid == arena[k].pid && s[r].name
                            == arena[k].name && parent_key(s, r, adopt) == Some(
                            arena[arena[k].parent].pid,
                        );
                    assert(s[r].pid == next[k].pid);
                } else {
                    assert(s[j].pid == next[k].pid);
                }
            }
            assert forall|a: int, b: int| 0 <= a < b < next.len() implies (#[trigger] next[a]).pid
                != (#[trigger] next[b]).pid by {
                if b == arena.len() {
                    assert(arena[a].pid != s[j].pid);
                } else {
                    assert(arena[a].pid != arena[b].pid);
                }
            }
            assert(grown_soundly(s, adopt, next));
            lemma_attach(s, adopt, next, head, j + 1);
            assert(begins(arena, result));
            assert(next[arena.len() as int].pid == s[j].pid);
            assert(holds_pid(next, s[j].pid));
            lemma_holds_in_longer(next, result, s[j].pid);
            assert forall|i: int| j <= i < s.len() implies #[trigger] settled(
                s,
                adopt,
                result,
                head,
                i,
            ) by {
                if i > j {
                    assert(settled(s, adopt, result, head, i));
                }
            }
        } else {
            lemma_attach(s, adopt, arena, head, j + 1);
            if parent_key(s, j, adopt) == Some(arena[head].pid) {
                lemma_holds_in_longer(arena, result, s[j].pid);
            }
            assert forall|i: int| j <= i < s.len() implies #[trigger] settled(
                s,
                adopt,
                result,
                head,
                i,
            ) by {
                if i > j {
                    assert(settled(s, adopt, result, head, i));
                }
            }
        }
    }
}

/// A soundly grown list has at most one node more than there are records.
proof fn lemma_sound_length(s: Seq<Record>, adopt: bool, arena: Seq<Slot>)
    requires
        grown_soundly(s, adopt, arena),
    ensures
        arena.len() <= s.len() + 1,
{
    let source = |k: int|
        choose|j: int|
            0 <= j < s.len() && (#[trigger] s[j]).pid == arena[k].pid && s[j].name == arena[k].name
                && parent_key(s, j, adopt) == Some(arena[arena[k].parent].pid);
    let sources = Seq::new((arena.len() - 1) as nat, |i: int| source(i + 1));
    assert forall|i: int| 0 <= i < sources.len() implies 0 <= #[trigger] sources[i] < s.len()
        && s[sources[i]].pid == arena[i + 1].pid by {
        assert(made_from_record(s, adopt, arena, i + 1));
    }
    assert forall|a: int, b: int| 0 <= a < b < sources.len() implies sources[a] != sources[b] by {
        assert(s[sources[a]].pid == arena[a + 1].pid);
        assert(s[sources[b]].pid == arena[b + 1].pid);
        assert(arena[a + 1].pid != arena[b + 1].pid);
    }
    assert(sources.no_duplicates());
    sources.unique_seq_to_set();
    let range = vstd::set_lib::set_int_range(0, s.len() as int);
    vstd::set_lib::lemma_int_range(0, s.len() as int);
    assert forall|j: int| sources.to_set().contains(j) implies range.contains(j) by {
        let i = choose|i: int| 0 <= i < sources.len() && sources[i] == j;
        assert(0 <= sources[i] < s.len());
    }
    vstd::set_lib::lemma_len_subset(sources.to_set(), range);
}

/// Growth keeps a list soundly grown, only adds to its end, and settles
/// every record for every node.
proof fn lemma_grow(s: Seq<Record>, adopt: bool, arena: Seq<Slot>, head: int)
    requires
        grown_soundly(s, adopt, arena),
        closed_upto(s, adopt, arena, head),
        0 <= head <= arena.len(),
    ensures
        grown_soundly(s, adopt, grow_from(s, adopt, arena, head)),
        begins(arena, grow_from(s, adopt, arena, head)),
        closed_upto(
            s,
            adopt,
            grow_from(s, adopt, arena, head),
            grow_from(s, adopt, arena, head).len() as int,
        ),
    decreases s.len() + 1 - head,
{
    lemma_sound_length(s, adopt, arena);
    if head < arena.len() {
        let next = attach_from(s, adopt, arena, head, 0);
        lemma_attach(s, adopt, arena, head, 0);
        assert forall|h: int, j: int|
            0 <= h < head + 1 && h < next.len() && 0 <= j < s.len() implies #[trigger] settled(
            s,
            adopt,
            next,
            h,
            j,
        ) by {
            if h < head {
                assert(settled(s, adopt, arena, h, j));
                assert(next[h] == arena[h]);
                if parent_key(s, j, adopt) == Some(arena[h].pid) {
                    lemma_holds_in_longer(arena, next, s[j].pid);
                }
            } else {
                assert(next[head] == arena[head]);
            }
        }
        lemma_grow(s, adopt, next, head + 1);
    }
}

/// What holds of the list of a grown tree: it begins with the root, it is
/// soundly grown, and every record is settled for every node.
pub proof fn lemma_grown_list(s: Seq<Record>, adopt: bool, root: Slot)
    ensures
        grow_from(s, adopt, seq![root], 0).len() > 0,
        grow_from(s, adopt, seq![root], 0)[0] == root,
        grown_soundly(s, adopt, grow_from(s, adopt, seq![root], 0)),
        closed_upto(
            s,
            adopt,
            grow_from(s, adopt, seq![root], 0),
            grow_from(s, adopt, seq![root], 0).len() as int,
        ),
{
    let start = seq![root];
    assert(grown_soundly(s, adopt, start));
    lemma_grow(s, adopt, start, 0);
    assert(start[0] == root);
}


/// The pid at which a chain of records ends: that of its last record, and
/// the root where the chain is empty.
pub open spec fn chain_end(s: Seq<Record>, root: u32, path: Seq<int>) -> u32 {
    if path.len() == 0 {
        root
    } else {
        s[path.last()].pid
    }
}

/// `path` lists positions of records of which the first has the root as
/// its parent key, and each further one the pid of the record before it.
pub open spec fn is_chain(s: Seq<Record>, adopt: bool, root: u32, path: Seq<int>) -> bool {
    forall|i: int|
        0 <= i < path.len() ==> 0 <= #[trigger] path[i] < s.len() && parent_key(s, path[i], adopt)
            == Some(chain_end(s, root, path.take(i)))
}

/// `pid` is the root or one of its descendants over the parent keys of
/// the records: a chain of records leads from the root to it.
pub open spec fn descends(s: Seq<Record>, adopt: bool, root: u32, pid: u32) -> bool {
    exists|path: Seq<int>| #[trigger] is_chain(s, adopt, root, path) && chain_end(s, root, path) == pid
}

/// The pid of every node descends from the root.
proof fn lemma_slot_descends(s: Seq<Record>, adopt: bool, arena: Seq<Slot>, k: int)
    requires
        grown_soundly(s, adopt, arena),
        0 <= k < arena.len(),
    ensures
        descends(s, adopt, arena[0].pid, arena[k].pid),
    decreases k,
{
    let root = arena[0].pid;
    if k == 0 {
        let path = Seq::<int>::empty();
        assert(is_chain(s, adopt, root, path));
    } else {
        let p = arena[k].parent;
        lemma_slot_descends(s, adopt, arena, p);
        let before = choose|path: Seq<int>| #[trigger]
            is_chain(s, adopt, root, path) && chain_end(s, root, path) == arena[p].pid;
        assert(made_from_record(s, adopt, arena, k));
        let j = choose|j: int|
            0 <= j < s.len() && (#[trigger] s[j]).pid == arena[k].pid && s[j].name == arena[k].name
                && parent_key(s, j, adopt) == Some(arena[arena[k].parent].pid);
        let path = before.push(j);
        assert forall|i: int| 0 <= i < path.len() implies 0 <= #[trigger] path[i] < s.len()
            && parent_key(s, path[i], adopt) == Some(chain_end(s, root, path.take(i))) by {
            if i < before.len() {
                assert(path.take(i) =~= before.take(i));
                assert(path[i] == before[i]);
            } else {
                assert(path.take(i) =~= before);
            }
        }
        assert(is_chain(s, adopt, root, path));
        assert(chain_end(s, root, path) == arena[k].pid);
    }
}

/// Where every record is settled for every node, the list holds the end
/// of every chain from the root.
proof fn lemma_chain_held(s: Seq<Record>, adopt: bool, arena: Seq<Slot>, path: Seq<int>)
    requires
        arena.len() > 0,
        closed_upto(s, adopt, arena, arena.len() as int),
        is_chain(s, adopt, arena[0].pid, path),
    ensures
        holds_pid(arena, chain_end(s, arena[0].pid, path)),
    decreases path.len(),
{
    let root = arena[0].pid;
    if path.len() == 0 {
        assert(arena[0].pid == root);
    } else {
        let before = path.drop_last();
        assert forall|i: int| 0 <= i < before.len() implies 0 <= #[trigger] before[i] < s.len()
            && parent_key(s, before[i], adopt) == Some(chain_end(s, root, before.take(i))) by {
            assert(before[i] == path[i]);
            assert(before.take(i) =~= path.take(i));
        }
        lemma_chain_held(s, adopt, arena, before);
        let h = choose|h: int|
            0 <= h < arena.len() && (#[trigger] arena[h]).pid == chain_end(s, root, before);
        let last = path.len() - 1;
        let j = path[last];
        assert(path.take(last) =~= before);
        assert(parent_key(s, j, adopt) == Some(arena[h].pid));
        assert(settled(s, adopt, arena, h, j));
    }
}

/// The list holds a pid where its count is positive, and no count
/// exceeds one where no two nodes have the same pid.
proof fn lemma_slot_count(arena: Seq<Slot>, pid: u32, j: int)
    requires
        0 <= j <= arena.len(),
    ensures
        slot_count(arena, pid, j) > 0 <==> exists|k: int|
            j <= k < arena.len() && (#[trigger] arena[k]).pid == pid,
        (forall|a: int, b: int|
            0 <= a < b < arena.len() ==> (#[trigger] arena[a]).pid != (#[trigger] arena[b]).pid)
            ==> slot_count(arena, pid, j) <= 1,
    decreases arena.len() - j,
{
    if j < arena.len() {
        lemma_slot_count(arena, pid, j + 1);
        if arena[j].pid == pid {
            if forall|a: int, b: int|
                0 <= a < b < arena.len() ==> (#[trigger] arena[a]).pid != (#[trigger] arena[b]).pid {
                if slot_count(arena, pid, j + 1) > 0 {
                    let k = choose|k: int| j + 1 <= k < arena.len() && (#[trigger] arena[k]).pid == pid;
                    assert(arena[j].pid != arena[k].pid);
                }
            }
        } else {
            if exists|k: int| j <= k < arena.len() && (#[trigger] arena[k]).pid == pid {
                let k = choose|k: int| j <= k < arena.len() && (#[trigger] arena[k]).pid == pid;
                assert(j + 1 <= k);
            }
        }
    }
}

/// What a grown tree holds: no pid twice, and exactly the root and its
/// descendants over the parent keys of the records.
pub proof fn lemma_grown_tree(s: Seq<Record>, adopt: bool, root: u32, name: Seq<char>)
    ensures
        grown_tree(s, adopt, root, name).pid == root,
        grown_tree(s, adopt, root, name).info.name == name,
        pids_distinct(grown_tree(s, adopt, root, name)),
        forall|pid: u32|
            tree_count(grown_tree(s, adopt, root, name), pid) > 0 <==> #[trigger] descends(
                s,
                adopt,
                root,
                pid,
            ),
{
    let first = Slot { pid: root, name, parent: 0 };
    let arena = grow_from(s, adopt, seq![first], 0);
    let tree = grown_tree(s, adopt, root, name);
    lemma_grown_list(s, adopt, first);
    assert forall|pid: u32| tree_count(tree, pid) <= 1 by {
        lemma_tree_counts_slots(arena, pid);
        lemma_slot_count(arena, pid, 0);
    }
    assert forall|pid: u32| tree_count(tree, pid) > 0 <==> #[trigger] descends(
        s,
        adopt,
        root,
        pid,
    ) by {
        lemma_tree_counts_slots(arena, pid);
        lemma_slot_count(arena, pid, 0);
        if tree_count(tree, pid) > 0 {
            let k = choose|k: int| 0 <= k < arena.len() && (#[trigger] arena[k]).pid == pid;
            lemma_slot_descends(s, adopt, arena, k);
        }
        if descends(s, adopt, root, pid) {
            let path = choose|path: Seq<int>| #[trigger]
                is_chain(s, adopt, root, path) && chain_end(s, root, path) == pid;
            lemma_chain_held(s, adopt, arena, path);
        }
    }
}

/// The child was made from a record: some record has the child's pid and
/// name and names `parent` as its parent key. A node so made has neither
/// path nor arguments.
pub open spec fn child_of_record(s: Seq<Record>, adopt: bool, parent: u32, child: Tree) -> bool {
    &&& child.info.path == Seq::<char>::empty()
    &&& child.info.arg == Seq::<char>::empty()
    &&& exists|j: int|
        0 <= j < s.len() && (#[trigger] s[j]).pid == child.pid && s[j].name == child.info.name
            && parent_key(s, j, adopt) == Some(parent)
}

/// Every child in the tree, at every depth, was made from a record that
/// names the pid of the node above it as its parent key.
pub open spec fn made_of_records(s: Seq<Record>, adopt: bool, t: Tree) -> bool
    decreases t,
{
    forall|i: int|
        0 <= i < t.children.len() ==> child_of_record(s, adopt, t.pid, #[trigger] t.children[i])
            && made_of_records(s, adopt, t.children[i])
}

/// The position in the list of the `i`-th of those nodes at `c`,
/// `c + 1`, .. whose parent is the node at `k`.
spec fn child_slot(arena: Seq<Slot>, k: int, c: int, i: int) -> int
    decreases arena.len() - c,
{
    if c <= k || c >= arena.len() {
        c
    } else if arena[c].parent == k {
        if i == 0 {
            c
        } else {
            child_slot(arena, k, c + 1, i - 1)
        }
    } else {
        child_slot(arena, k, c + 1, i)
    }
}

/// Each child of the node at `k` is the tree below a later node whose
/// parent is the node at `k`.
proof fn lemma_child_slot(arena: Seq<Slot>, k: int, c: int, i: int)
    requires
        0 <= k < c,
        0 <= i < children_from(arena, k, c).len(),
    ensures
        c <= child_slot(arena, k, c, i) < arena.len(),
        arena[child_slot(arena, k, c, i)].parent == k,
        children_from(arena, k, c)[i] == subtree(arena, child_slot(arena, k, c, i)),
    decreases arena.len() - c,
{
    if c < arena.len() {
        if arena[c].parent == k {
            if i > 0 {
                lemma_child_slot(arena, k, c + 1, i - 1);
            }
        } else {
            lemma_child_slot(arena, k, c + 1, i);
        }
    }
}

/// In the tree below a node of a soundly grown list every child was made
/// from a record that names its parent.
proof fn lemma_subtree_made(s: Seq<Record>, adopt: bool, arena: Seq<Slot>, k: int)
    requires
        grown_soundly(s, adopt, arena),
        0 <= k < arena.len(),
    ensures
        made_of_records(s, adopt, subtree(arena, k)),
    decreases arena.len() - k,
{
    let t = subtree(arena, k);
    assert forall|i: int| 0 <= i < t.children.len() implies child_of_record(
        s,
        adopt,
        t.pid,
        #[trigger] t.children[i],
    ) && made_of_records(s, adopt, t.children[i]) by {
        lemma_child_slot(arena, k, k + 1, i);
        let c = child_slot(arena, k, k + 1, i);
        assert(made_from_record(s, adopt, arena, c));
        let j = choose|j: int|
            0 <= j < s.len() && (#[trigger] s[j]).pid == arena[c].pid && s[j].name == arena[c].name
                && parent_key(s, j, adopt) == Some(arena[arena[c].parent].pid);
        assert(s[j].pid == t.children[i].pid);
        lemma_subtree_made(s, adopt, arena, c);
    }
}

/// How a grown tree is made: the root has the given pid and name, and
/// every child, at every depth, was made from a record of the snapshot
/// that names the pid of the node above it as its parent key. No node has
/// a path or arguments.
pub proof fn lemma_grown_tree_made(s: Seq<Record>, adopt: bool, root: u32, name: Seq<char>)
    ensures
        grown_tree(s, adopt, root, name).pid == root,
        grown_tree(s, adopt, root, name).info == (Info {
            name,
            path: Seq::empty(),
            arg: Seq::empty(),
        }),
        made_of_records(s, adopt, grown_tree(s, adopt, root, name)),
{
    let first = Slot { pid: root, name, parent: 0 };
    lemma_grown_list(s, adopt, first);
    lemma_subtree_made(s, adopt, grow_from(s, adopt, seq![first], 0), 0);
}

/// The law of the subtree: where a record has the pid, the tree of
/// `down_tree` holds no pid twice, it holds exactly that pid and what
/// descends from it over the parent pids of the records, and each of its
/// children was made from a record that names the node above it as its
/// parent.
pub proof fn lemma_down_tree(s: Seq<Record>, root: u32)
    requires
        is_live(s, root),
    ensures
        down_tree(s, root) is Some,
        down_tree(s, root)->0.pid == root,
        made_of_records(s, false, down_tree(s, root)->0),
        pids_distinct(down_tree(s, root)->0),
        forall|pid: u32|
            tree_count(down_tree(s, root)->0, pid) > 0 <==> #[trigger] descends(s, false, root, pid),
{
    lemma_terminator_index(record_pids(s), root);
    let j = choose|j: int| 0 <= j < s.len() && (#[trigger] s[j]).pid == root;
    assert(record_pids(s)[j] == root);
    let i = first_record(s, root);
    lemma_grown_tree(s, false, root, s[i].name);
    lemma_grown_tree_made(s, false, root, s[i].name);
}


/// The pids of the list ascend strictly.
pub open spec fn strictly_ascending(pids: Seq<u32>) -> bool {
    forall|a: int, b: int| 0 <= a < b < pids.len() ==> pids[a] < pids[b]
}

/// Record `j` has no parent key under adoption: its pid is a root.
pub open spec fn is_parentless(s: Seq<Record>, j: int) -> bool {
    parent_key(s, j, true) is None
}

/// `pid` is a root pid of the snapshot: pid 0, or the pid of one of the
/// first `n` records that have no parent key under adoption.
pub open spec fn is_root_upto(s: Seq<Record>, n: int, pid: u32) -> bool {
    pid == 0 || exists|j: int| 0 <= j < n && j < s.len() && (#[trigger] s[j]).pid == pid && is_parentless(s, j)
}

/// Inserting keeps the list strictly ascending and adds the pid, and
/// nothing else.
proof fn lemma_insert_root(roots: Seq<u32>, pid: u32)
    requires
        strictly_ascending(roots),
    ensures
        strictly_ascending(insert_root(roots, pid)),
        forall|x: u32|
            #![trigger insert_root(roots, pid).contains(x)]
            #![trigger roots.contains(x)]
            insert_root(roots, pid).contains(x) <==> (x == pid || roots.contains(x)),
    decreases roots.len(),
{
    let result = insert_root(roots, pid);
    if roots.len() == 0 {
        assert(result[0] == pid);
        assert forall|x: u32| result.contains(x) <==> (x == pid || roots.contains(x)) by {
            if result.contains(x) {
                let i = choose|i: int| 0 <= i < result.len() && result[i] == x;
            }
        }
    } else if roots.last() == pid {
        assert(roots[roots.len() - 1] == pid);
    } else if roots.last() < pid {
        assert forall|a: int, b: int| 0 <= a < b < result.len() implies result[a] < result[b] by {
            if b == roots.len() && a < roots.len() - 1 {
                assert(roots[a] < roots[roots.len() - 1]);
            }
        }
        assert forall|x: u32| result.contains(x) <==> (x == pid || roots.contains(x)) by {
            if result.contains(x) {
                let i = choose|i: int| 0 <= i < result.len() && result[i] == x;
                if i < roots.len() {
                    assert(roots[i] == x);
                }
            }
            if roots.contains(x) {
                let i = choose|i: int| 0 <= i < roots.len() && roots[i] == x;
                assert(result[i] == x);
            }
            if x == pid {
                assert(result[roots.len() as int] == x);
            }
        }
    } else {
        let front = roots.drop_last();
        let last = roots.last();
        assert forall|a: int, b: int| 0 <= a < b < front.len() implies front[a] < front[b] by {
            assert(front[a] == roots[a] && front[b] == roots[b]);
        }
        lemma_insert_root(front, pid);
        let inner = insert_root(front, pid);
        assert forall|i: int| 0 <= i < inner.len() implies inner[i] < last by {
            assert(inner.contains(inner[i]));
            if inner[i] != pid {
                assert(front.contains(inner[i]));
                let k = choose|k: int| 0 <= k < front.len() && front[k] == inner[i];
                assert(roots[k] < roots[roots.len() - 1]);
            }
        }
        assert forall|a: int, b: int| 0 <= a < b < result.len() implies result[a] < result[b] by {
            if b < inner.len() {
                assert(inner[a] < inner[b]);
            }
        }
        assert forall|x: u32| result.contains(x) <==> (x == pid || roots.contains(x)) by {
            assert(inner.contains(x) <==> (x == pid || front.contains(x)));
            if result.contains(x) {
                let i = choose|i: int| 0 <= i < result.len() && result[i] == x;
                if i < inner.len() {
                    assert(inner[i] == x);
                    assert(inner.contains(x));
                    if x != pid {
                        let k = choose|k: int| 0 <= k < front.len() && front[k] == x;
                        assert(roots[k] == x);
                    }
                } else {
                    assert(roots[roots.len() - 1] == x);
                }
            }
            if roots.contains(x) {
                let k = choose|k: int| 0 <= k < roots.len() && roots[k] == x;
                if k < front.len() {
                    assert(front[k] == x);
                    assert(front.contains(x));
                } else {
                    assert(result[inner.len() as int] == x);
                }
            }
            if inner.contains(x) {
                let i = choose|i: int| 0 <= i < inner.len() && inner[i] == x;
                assert(result[i] == x);
            }
        }
    }
}

/// The root pids ascend strictly, and they are pid 0 and the pids of the
/// records that have no parent key under adoption.
pub proof fn lemma_root_pids_upto(s: Seq<Record>, n: nat)
    requires
        n <= s.len(),
    ensures
        strictly_ascending(root_pids_upto(s, n)),
        forall|pid: u32|
            #![trigger root_pids_upto(s, n).contains(pid)]
            #![trigger is_root_upto(s, n as int, pid)]
            root_pids_upto(s, n).contains(pid) <==> is_root_upto(s, n as int, pid),
    decreases n,
{
    let roots = root_pids_upto(s, n);
    if n == 0 {
        assert(roots[0] == 0u32);
        assert forall|pid: u32| roots.contains(pid) <==> is_root_upto(s, 0, pid) by {
            if roots.contains(pid) {
                let i = choose|i: int| 0 <= i < roots.len() && roots[i] == pid;
            }
        }
    } else {
        let m = (n - 1) as nat;
        lemma_root_pids_upto(s, m);
        let before = root_pids_upto(s, m);
        if is_parentless(s, m as int) {
            lemma_insert_root(before, s[m as int].pid);
        }
        assert forall|pid: u32| roots.contains(pid) <==> is_root_upto(s, n as int, pid) by {
            assert(before.contains(pid) <==> is_root_upto(s, m as int, pid));
            if is_parentless(s, m as int) {
                assert(roots.contains(pid) <==> (pid == s[m as int].pid || before.contains(pid)));
            }
            if is_root_upto(s, m as int, pid) && pid != 0 {
                let j = choose|j: int|
                    0 <= j < m && j < s.len() && (#[trigger] s[j]).pid == pid && is_parentless(s, j);
                assert(0 <= j < n && s[j].pid == pid);
            }
            if is_root_upto(s, n as int, pid) && pid != 0 {
                let j = choose|j: int|
                    0 <= j < n && j < s.len() && (#[trigger] s[j]).pid == pid && is_parentless(s, j);
                if j < m {
                    assert(is_root_upto(s, m as int, pid));
                }
            }
            if is_parentless(s, m as int) && pid == s[m as int].pid {
                assert(s[m as int].pid == pid);
                assert(is_root_upto(s, n as int, pid));
            }
        }
    }
}


/// No two records have the same pid.
pub open spec fn pids_unique(s: Seq<Record>) -> bool {
    forall|i: int, j: int| 0 <= i < j < s.len() ==> (#[trigger] s[i]).pid != (#[trigger] s[j]).pid
}

/// `pid` is a root pid of the snapshot.
pub open spec fn is_root(s: Seq<Record>, pid: u32) -> bool {
    is_root_upto(s, s.len() as int, pid)
}

/// `pid` is a root or descends from one, with adoption.
pub open spec fn is_rooted(s: Seq<Record>, pid: u32) -> bool {
    exists|root: u32| is_root(s, root) && #[trigger] descends(s, true, root, pid)
}

/// A chain without its last record is a chain, and the last record has
/// the end of that chain as its parent key.
proof fn lemma_chain_front(s: Seq<Record>, adopt: bool, root: u32, path: Seq<int>)
    requires
        is_chain(s, adopt, root, path),
        path.len() > 0,
    ensures
        is_chain(s, adopt, root, path.drop_last()),
        0 <= path.last() < s.len(),
        parent_key(s, path.last(), adopt) == Some(chain_end(s, root, path.drop_last())),
{
    let before = path.drop_last();
    assert forall|i: int| 0 <= i < before.len() implies 0 <= #[trigger] before[i] < s.len()
        && parent_key(s, before[i], adopt) == Some(chain_end(s, root, before.take(i))) by {
        assert(before[i] == path[i]);
        assert(before.take(i) =~= path.take(i));
    }
    let last = path.len() - 1;
    assert(0 <= path[last] < s.len());
    assert(path.take(last) =~= before);
}

/// A root at which a chain from a root ends is that root.
proof fn lemma_root_at_end(s: Seq<Record>, r: u32, root: u32, path: Seq<int>)
    requires
        pids_unique(s),
        is_root(s, r),
        is_root(s, root),
        is_chain(s, true, root, path),
        chain_end(s, root, path) == r,
    ensures
        r == root,
{
    if path.len() > 0 {
        lemma_chain_front(s, true, root, path);
        let j = path.last();
        assert(s[j].pid == r);
        if r != 0 {
            let k = choose|k: int|
                0 <= k < s.len() && k < s.len() && (#[trigger] s[k]).pid == r && is_parentless(s, k);
            if k < j {
                assert(s[k].pid != s[j].pid);
            } else if j < k {
                assert(s[j].pid != s[k].pid);
            }
        } else {
            assert(is_live(s, 0u32));
            if root != 0 {
                let k = choose|k: int|
                    0 <= k < s.len() && k < s.len() && (#[trigger] s[k]).pid == root && is_parentless(
                        s,
                        k,
                    );
                assert(parent_key(s, k, true) is None);
            }
        }
    }
}

/// Where no two records have the same pid, a pid descends from one root
/// at most.
pub proof fn lemma_one_root(
    s: Seq<Record>,
    root_a: u32,
    root_b: u32,
    path_a: Seq<int>,
    path_b: Seq<int>,
)
    requires
        pids_unique(s),
        is_root(s, root_a),
        is_root(s, root_b),
        is_chain(s, true, root_a, path_a),
        is_chain(s, true, root_b, path_b),
        chain_end(s, root_a, path_a) == chain_end(s, root_b, path_b),
    ensures
        root_a == root_b,
    decreases path_a.len() + path_b.len(),
{
    if path_a.len() == 0 {
        lemma_root_at_end(s, root_a, root_b, path_b);
    } else if path_b.len() == 0 {
        lemma_root_at_end(s, root_b, root_a, path_a);
    } else {
        lemma_chain_front(s, true, root_a, path_a);
        lemma_chain_front(s, true, root_b, path_b);
        let i = path_a.last();
        let j = path_b.last();
        if i < j {
            assert(s[i].pid != s[j].pid);
        } else if j < i {
            assert(s[j].pid != s[i].pid);
        }
        lemma_one_root(s, root_a, root_b, path_a.drop_last(), path_b.drop_last());
    }
}

/// Where one tree at most holds the pid, and that one once, the forest
/// holds it as often as that tree is there.
proof fn lemma_count_of_one(trees: Seq<Tree>, pid: u32, at: int)
    requires
        at < 0 || at >= trees.len() || tree_count(trees[at], pid) == 1,
        forall|k: int| 0 <= k < trees.len() && k != at ==> tree_count(#[trigger] trees[k], pid) == 0,
    ensures
        forest_count(trees, pid) == (if 0 <= at < trees.len() {
            1nat
        } else {
            0nat
        }),
    decreases trees.len(),
{
    if trees.len() > 0 {
        let front = trees.drop_last();
        assert forall|k: int| 0 <= k < front.len() && k != at implies tree_count(
            #[trigger] front[k],
            pid,
        ) == 0 by {
            assert(front[k] == trees[k]);
        }
        if 0 <= at < front.len() {
            assert(front[at] == trees[at]);
        }
        lemma_count_of_one(front, pid, at);
        let last = trees.len() - 1;
        if at != last {
            assert(tree_count(trees[last], pid) == 0);
        }
    }
}

/// Where no two records have the same pid, the forest holds a pid once
/// if it is a root or descends from one, and not at all otherwise.
pub proof fn lemma_forest_count(s: Seq<Record>, pid: u32)
    requires
        pids_unique(s),
    ensures
        forest_count(forest(s), pid) == (if is_rooted(s, pid) {
            1nat
        } else {
            0nat
        }),
{
    let roots = root_pids(s);
    let trees = forest(s);
    lemma_root_pids_upto(s, s.len());
    assert forall|k: int| 0 <= k < trees.len() implies (tree_count(#[trigger] trees[k], pid) == (if descends(
        s,
        true,
        roots[k],
        pid,
    ) {
        1nat
    } else {
        0nat
    })) && is_root(s, roots[k]) by {
        lemma_grown_tree(s, true, roots[k], root_name(s, roots[k]));
        assert(trees[k] == root_tree(s, roots[k]));
        assert(tree_count(trees[k], pid) > 0 <==> descends(s, true, roots[k], pid));
        assert(roots.contains(roots[k]));
        assert(root_pids_upto(s, s.len()).contains(roots[k]));
    }
    if is_rooted(s, pid) {
        let root = choose|root: u32| is_root(s, root) && #[trigger] descends(s, true, root, pid);
        assert(root_pids_upto(s, s.len()).contains(root));
        let at = choose|at: int| 0 <= at < roots.len() && roots[at] == root;
        let path = choose|path: Seq<int>| #[trigger]
            is_chain(s, true, root, path) && chain_end(s, root, path) == pid;
        assert forall|k: int| 0 <= k < trees.len() && k != at implies tree_count(
            #[trigger] trees[k],
            pid,
        ) == 0 by {
            if descends(s, true, roots[k], pid) {
                let other = choose|other: Seq<int>| #[trigger]
                    is_chain(s, true, roots[k], other) && chain_end(s, roots[k], other) == pid;
                lemma_one_root(s, root, roots[k], path, other);
                if k < at {
                    assert(roots[k] < roots[at]);
                } else {
                    assert(roots[at] < roots[k]);
                }
            }
        }
        assert(tree_count(trees[at], pid) == 1);
        lemma_count_of_one(trees, pid, at);
    } else {
        assert forall|k: int| 0 <= k < trees.len() && k != -1 implies tree_count(
            #[trigger] trees[k],
            pid,
        ) == 0 by {
            if descends(s, true, roots[k], pid) {
                assert(is_root(s, roots[k]));
            }
        }
        lemma_count_of_one(trees, pid, -1);
    }
}

/// The number of pids of the list from which `pid` descends, with
/// adoption.
pub open spec fn roots_above(s: Seq<Record>, roots: Seq<u32>, pid: u32) -> nat
    decreases roots.len(),
{
    if roots.len() == 0 {
        0
    } else {
        roots_above(s, roots.drop_last(), pid) + (if descends(s, true, roots.last(), pid) {
            1nat
        } else {
            0nat
        })
    }
}

/// The trees of the first `n` roots hold a pid as often as it descends
/// from one of these roots.
proof fn lemma_forest_count_upto(s: Seq<Record>, pid: u32, n: int)
    requires
        0 <= n <= root_pids(s).len(),
    ensures
        forest_count(forest(s).take(n), pid) == roots_above(s, root_pids(s).take(n), pid),
    decreases n,
{
    let trees = forest(s).take(n);
    let roots = root_pids(s).take(n);
    if n > 0 {
        lemma_forest_count_upto(s, pid, n - 1);
        assert(trees.drop_last() =~= forest(s).take(n - 1));
        assert(roots.drop_last() =~= root_pids(s).take(n - 1));
        let root = roots.last();
        assert(trees.last() == root_tree(s, root));
        lemma_grown_tree(s, true, root, root_name(s, root));
        assert(tree_count(trees.last(), pid) > 0 <==> descends(s, true, root, pid));
    }
}

/// What the forest holds, whatever the snapshot: a pid stands in the
/// forest once for each root from which it descends. So the forest holds
/// a pid exactly once where it descends from exactly one root, and only
/// there.
pub proof fn lemma_forest_holds(s: Seq<Record>, pid: u32)
    ensures
        forest_count(forest(s), pid) == roots_above(s, root_pids(s), pid),
{
    let n = root_pids(s).len() as int;
    lemma_forest_count_upto(s, pid, n);
    assert(forest(s).take(n) =~= forest(s));
    assert(root_pids(s).take(n) =~= root_pids(s));
}

/// Climbing from record `j` to its parent, and on to the parent of that
/// one, comes within `steps` steps to a record without a parent key or to
/// one that stands under pid 0.
pub open spec fn climbs_out(s: Seq<Record>, j: int, steps: nat) -> bool
    decreases steps,
{
    parent_key(s, j, true) is None || parent_key(s, j, true) == Some(0u32) || (steps > 0
        && exists|k: int|
        0 <= k < s.len() && parent_key(s, j, true) == Some((#[trigger] s[k]).pid) && climbs_out(
            s,
            k,
            (steps - 1) as nat,
        ))
}

/// The climb from record `j` comes out.
pub open spec fn comes_out(s: Seq<Record>, j: int) -> bool {
    exists|steps: nat| #[trigger] climbs_out(s, j, steps)
}

/// No record stands on a cycle of parents that leads to no root.
pub open spec fn free_of_cycles(s: Seq<Record>) -> bool {
    forall|j: int| 0 <= j < s.len() ==> #[trigger] comes_out(s, j)
}

/// A record from which the climb comes out is a root or descends from
/// one.
pub proof fn lemma_climb_is_rooted(s: Seq<Record>, j: int, steps: nat)
    requires
        0 <= j < s.len(),
        climbs_out(s, j, steps),
    ensures
        is_rooted(s, s[j].pid),
    decreases steps,
{
    let pid = s[j].pid;
    if parent_key(s, j, true) is None {
        let path = Seq::<int>::empty();
        assert(is_chain(s, true, pid, path));
        assert(is_parentless(s, j));
        assert(is_root(s, pid));
        assert(descends(s, true, pid, pid));
    } else if parent_key(s, j, true) == Some(0u32) {
        let path = seq![j];
        assert forall|i: int| 0 <= i < path.len() implies 0 <= #[trigger] path[i] < s.len()
            && parent_key(s, path[i], true) == Some(chain_end(s, 0u32, path.take(i))) by {
            assert(path.take(0) =~= Seq::<int>::empty());
        }
        assert(is_chain(s, true, 0u32, path));
        assert(is_root(s, 0u32));
        assert(descends(s, true, 0u32, pid));
    } else {
        let k = choose|k: int|
            0 <= k < s.len() && parent_key(s, j, true) == Some((#[trigger] s[k]).pid) && climbs_out(
                s,
                k,
                (steps - 1) as nat,
            );
        lemma_climb_is_rooted(s, k, (steps - 1) as nat);
        let root = choose|root: u32| is_root(s, root) && #[trigger] descends(s, true, root, s[k].pid);
        let before = choose|path: Seq<int>| #[trigger]
            is_chain(s, true, root, path) && chain_end(s, root, path) == s[k].pid;
        let path = before.push(j);
        assert forall|i: int| 0 <= i < path.len() implies 0 <= #[trigger] path[i] < s.len()
            && parent_key(s, path[i], true) == Some(chain_end(s, root, path.take(i))) by {
            if i < before.len() {
                assert(path.take(i) =~= before.take(i));
                assert(path[i] == before[i]);
            } else {
                assert(path.take(i) =~= before);
            }
        }
        assert(is_chain(s, true, root, path));
        assert(descends(s, true, root, pid));
    }
}

/// The law of the forest: where no two records have the same pid and no
/// record stands on a cycle of parents, every pid of the snapshot stands
/// in exactly one tree of the forest, and once in it. So does pid 0.
pub proof fn lemma_forest_partition(s: Seq<Record>)
    requires
        pids_unique(s),
        free_of_cycles(s),
    ensures
        forall|j: int| 0 <= j < s.len() ==> forest_count(forest(s), (#[trigger] s[j]).pid) == 1,
        forest_count(forest(s), 0u32) == 1,
{
    assert forall|j: int| 0 <= j < s.len() implies forest_count(forest(s), (#[trigger] s[j]).pid)
        == 1 by {
        assert(comes_out(s, j));
        let steps = choose|steps: nat| #[trigger] climbs_out(s, j, steps);
        lemma_climb_is_rooted(s, j, steps);
        lemma_forest_count(s, s[j].pid);
    }
    lemma_forest_count(s, 0u32);
    assert(is_rooted(s, 0u32)) by {
        let path = Seq::<int>::empty();
        assert(is_chain(s, true, 0u32, path));
        assert(is_root(s, 0u32));
        assert(descends(s, true, 0u32, 0u32));
    }
}

/// A breadth-first search finds a pid exactly where the trees hold it.
pub proof fn lemma_found_iff_counted(queue: Seq<Tree>, pid: u32)
    ensures
        first_with_pid(breadth_first(queue), pid) is Some <==> forest_count(queue, pid) > 0,
    decreases forest_size(queue),
{
    if queue.len() > 0 {
        let first = queue[0];
        let rest = queue.skip(1) + first.children;
        lemma_queue_step(queue);
        lemma_found_iff_counted(rest, pid);
        assert(queue =~= seq![first] + queue.skip(1));
        lemma_forest_count_add(seq![first], queue.skip(1), pid);
        lemma_forest_count_one(first, pid);
        lemma_forest_count_add(queue.skip(1), first.children, pid);
        let order = breadth_first(queue);
        assert(order.skip(1) =~= breadth_first(rest));
        assert(order[0] == first);
    }
}

/// A breadth-first search in a tree finds a pid exactly where the tree
/// holds it.
pub proof fn lemma_found_in_tree(t: Tree, pid: u32)
    ensures
        found_in(t, pid) is Some <==> tree_count(t, pid) > 0,
{
    lemma_found_iff_counted(seq![t], pid);
    lemma_forest_count_one(t, pid);
}

/// What the ancestor walk keeps: a tree without a pid twice has none
/// twice with its ancestors above it.
pub proof fn lemma_up_tree_distinct(s: Seq<Record>, t: Tree, fuel: nat)
    requires
        pids_distinct(t),
    ensures
        pids_distinct(up_tree(s, t, fuel)),
    decreases fuel,
{
    if fuel > 0 {
        match parent_above(s, t) {
            None => {},
            Some(parent) => {
                let own = latest_record(s, t.pid);
                let pid = s[own].parent_pid;
                lemma_latest_record(s, pid);
                let above = tree_above(t, s[parent].pid, s[parent].name);
                lemma_found_in_tree(t, pid);
                assert forall|x: u32| tree_count(above, x) <= 1 by {
                    lemma_forest_count_one(t, x);
                    assert(tree_count(t, x) <= 1);
                }
                lemma_up_tree_distinct(s, above, (fuel - 1) as nat);
            },
        }
    }
}

/// The pids of the snapshot that the tree does not hold.
pub open spec fn pids_outside(s: Seq<Record>, t: Tree) -> Set<u32> {
    Set::new(|pid: u32| is_live(s, pid) && tree_count(t, pid) == 0)
}

/// The pids outside a tree are finitely many, and no more than there are
/// records.
proof fn lemma_pids_outside(s: Seq<Record>, t: Tree)
    ensures
        pids_outside(s, t).finite(),
        pids_outside(s, t).len() <= s.len(),
{
    let pids = record_pids(s);
    vstd::seq_lib::seq_to_set_is_finite(pids);
    pids.lemma_cardinality_of_set();
    assert forall|pid: u32| pids_outside(s, t).contains(pid) implies pids.to_set().contains(pid) by {
        let j = choose|j: int| 0 <= j < s.len() && (#[trigger] s[j]).pid == pid;
        assert(pids[j] == pid);
    }
    vstd::set_lib::lemma_len_subset(pids_outside(s, t), pids.to_set());
}

/// With fuel for every pid outside the tree, the walk ends before the
/// fuel does.
proof fn lemma_up_tree_ends(s: Seq<Record>, t: Tree, fuel: nat)
    requires
        pids_outside(s, t).len() <= fuel,
    ensures
        parent_above(s, up_tree(s, t, fuel)) is None,
    decreases fuel,
{
    lemma_pids_outside(s, t);
    match parent_above(s, t) {
        None => {},
        Some(parent) => {
            let own = latest_record(s, t.pid);
            let pid = s[own].parent_pid;
            lemma_latest_record(s, pid);
            lemma_found_in_tree(t, pid);
            assert(s[parent].pid == pid);
            assert(is_live(s, pid));
            assert(pids_outside(s, t).contains(pid));
            let above = tree_above(t, pid, s[parent].name);
            assert(pids_outside(s, above) =~= pids_outside(s, t).remove(pid)) by {
                assert forall|x: u32| pids_outside(s, above).contains(x) <==> pids_outside(
                    s,
                    t,
                ).remove(pid).contains(x) by {
                    lemma_forest_count_one(t, x);
                }
            }
            assert(fuel > 0);
            lemma_up_tree_ends(s, above, (fuel - 1) as nat);
        },
    }
}

/// The ancestor walk comes to its end within as many steps as there are
/// records: no further parent can be put above its result.
pub proof fn lemma_up_tree_complete(s: Seq<Record>, t: Tree)
    ensures
        parent_above(s, up_tree(s, t, s.len())) is None,
{
    lemma_pids_outside(s, t);
    lemma_up_tree_ends(s, t, s.len());
}

} // verus!
