//! The tree builder: from a flat snapshot of process records to ancestry
//! trees.
//!
//! A tree grows breadth first. The nodes stand in a list in the order in
//! which they were attached; each node in turn is given, as children, the
//! records that name it as their parent, in snapshot order. A record whose
//! pid the tree already holds is passed over, so no pid occurs twice.
//!
//! The records that name a pid as their parent are looked up in an index
//! that is built once for a snapshot, the pids a tree holds are kept in a
//! set, and the ancestor walk finds the record of a pid in an index too.

use std::collections::{HashMap, HashSet};
use vstd::prelude::*;
use crate::laws::{
    descends, lemma_down_tree, lemma_grown_tree, lemma_grown_tree_made, lemma_root_pids_upto,
    lemma_up_tree_complete, lemma_up_tree_distinct, made_of_records, pids_distinct,
    strictly_ascending, tree_count,
};
use crate::process::{lemma_children_view, Info, PidNode, ProcessInfo, ProcessRecord, Record, Tree};
use crate::search::{find_child, found_in};
use crate::text::{lemma_terminator_index, lemma_terminator_index_unique, terminator_index};

verus! {

/// Some record of the snapshot has this pid.
pub open spec fn is_live(s: Seq<Record>, pid: u32) -> bool {
    exists|j: int| 0 <= j < s.len() && (#[trigger] s[j]).pid == pid
}

/// The pid under which record `j` is attached, if any.
///
/// Without adoption it is the record's parent pid. With adoption a record
/// whose parent is not in the snapshot is attached under pid 0, unless its
/// parent pid is 0 itself: such a record has no parent at all.
pub open spec fn parent_key(s: Seq<Record>, j: int, adopt: bool) -> Option<u32> {
    let parent = s[j].parent_pid;
    if !adopt || is_live(s, parent) {
        Some(parent)
    } else if parent == 0 {
        None
    } else {
        Some(0u32)
    }
}

/// The pids of the records, position by position.
pub open spec fn record_pids(s: Seq<Record>) -> Seq<u32> {
    Seq::new(s.len(), |j: int| s[j].pid)
}

/// The position of the first record with the given pid, or the length of
/// the snapshot where there is none.
pub open spec fn first_record(s: Seq<Record>, pid: u32) -> int {
    terminator_index(record_pids(s), pid)
}

/// A node of a growing tree: its pid and name, and the position of its
/// parent in the list of nodes.
pub struct Slot {
    pub pid: u32,
    pub name: Seq<char>,
    pub parent: int,
}

/// Some node of the list has this pid.
pub open spec fn holds_pid(arena: Seq<Slot>, pid: u32) -> bool {
    exists|k: int| 0 <= k < arena.len() && (#[trigger] arena[k]).pid == pid
}

/// The list after the records `j`, `j + 1`, .. were offered to the node at
/// `head`: a record is attached where its parent key is the pid of that
/// node and the list does not hold its pid yet.
pub open spec fn attach_from(
    s: Seq<Record>,
    adopt: bool,
    arena: Seq<Slot>,
    head: int,
    j: int,
) -> Seq<Slot>
    decreases s.len() - j,
{
    if j < 0 || j >= s.len() {
        arena
    } else if parent_key(s, j, adopt) == Some(arena[head].pid) && !holds_pid(arena, s[j].pid) {
        attach_from(
            s,
            adopt,
            arena.push(Slot { pid: s[j].pid, name: s[j].name, parent: head }),
            head,
            j + 1,
        )
    } else {
        attach_from(s, adopt, arena, head, j + 1)
    }
}

/// The list after the nodes at `head`, `head + 1`, .. have been given
/// their children, those attached on the way included.
///
/// The bound on `head` serves the definition only. A list never holds
/// more nodes than the snapshot has records, the root apart, so the bound
/// cuts nothing short (`lemma_grown_list` in `laws`): at the end every
/// node has been given its children.
pub open spec fn grow_from(s: Seq<Record>, adopt: bool, arena: Seq<Slot>, head: int) -> Seq<Slot>
    decreases s.len() + 1 - head,
{
    if head < 0 || head >= arena.len() || head > s.len() {
        arena
    } else {
        grow_from(s, adopt, attach_from(s, adopt, arena, head, 0), head + 1)
    }
}

/// The tree below the node at `k`.
pub open spec fn subtree(arena: Seq<Slot>, k: int) -> Tree
    decreases arena.len() - k, 1nat, 0nat,
{
    Tree {
        pid: arena[k].pid,
        info: Info { name: arena[k].name, path: Seq::empty(), arg: Seq::empty() },
        children: children_from(arena, k, k + 1),
    }
}

/// The trees below those nodes at `c`, `c + 1`, .. whose parent is the
/// node at `k`.
pub open spec fn children_from(arena: Seq<Slot>, k: int, c: int) -> Seq<Tree>
    decreases arena.len() - k, 0nat, arena.len() - c,
{
    if c <= k || c >= arena.len() {
        Seq::empty()
    } else if arena[c].parent == k {
        seq![subtree(arena, c)] + children_from(arena, k, c + 1)
    } else {
        children_from(arena, k, c + 1)
    }
}

/// The tree that grows from a root over the snapshot.
pub open spec fn grown_tree(s: Seq<Record>, adopt: bool, pid: u32, name: Seq<char>) -> Tree {
    subtree(grow_from(s, adopt, seq![Slot { pid, name, parent: 0 }], 0), 0)
}

/// The tree of a process and its descendants: the root is the first
/// record with the given pid. There is none where no record has it.
pub open spec fn down_tree(s: Seq<Record>, pid: u32) -> Option<Tree> {
    let i = first_record(s, pid);
    if i < s.len() {
        Some(grown_tree(s, false, pid, s[i].name))
    } else {
        None
    }
}

/// A node of the list as the builder holds it: the record it was made
/// from, if any, stands for its name.
struct Entry {
    pid: u32,
    record: Option<usize>,
    parent: usize,
}

/// The node that an entry stands for.
spec fn slot_of(s: Seq<Record>, e: Entry) -> Slot {
    Slot {
        pid: e.pid,
        name: match e.record {
            Some(r) => s[r as int].name,
            None => Seq::empty(),
        },
        parent: e.parent as int,
    }
}

/// The nodes that the entries stand for.
spec fn slots_of(s: Seq<Record>, entries: Seq<Entry>) -> Seq<Slot> {
    Seq::new(entries.len(), |k: int| slot_of(s, entries[k]))
}

/// Every entry that names a record names one of the snapshot.
spec fn entries_fit(s: Seq<Record>, entries: Seq<Entry>) -> bool {
    forall|k: int|
        0 <= k < entries.len() ==> ((#[trigger] entries[k]).record matches Some(r) ==> r < s.len())
}

/// The pids of the snapshot, as a set.
fn live_pids(snapshot: &Vec<ProcessRecord>) -> (pids: HashSet<u32>)
    ensures
        forall|pid: u32| pids@.contains(pid) <==> is_live(snapshot.deep_view(), pid),
{
    let ghost s = snapshot.deep_view();
    let mut pids: HashSet<u32> = HashSet::new();
    let mut j: usize = 0;
    while j < snapshot.len()
        invariant
            s == snapshot.deep_view(),
            j <= snapshot@.len(),
            forall|pid: u32|
                pids@.contains(pid) <==> exists|i: int| 0 <= i < j && (#[trigger] s[i]).pid == pid,
        decreases snapshot@.len() - j,
    {
        let ghost before = pids@;
        let pid = snapshot[j].pid;
        assert(s[j as int].pid == pid);
        pids.insert(pid);
        assert forall|x: u32| pids@.contains(x) <==> exists|i: int|
            0 <= i < j + 1 && (#[trigger] s[i]).pid == x by {
            if before.contains(x) {
                let i = choose|i: int| 0 <= i < j && (#[trigger] s[i]).pid == x;
                assert(0 <= i < j + 1 && s[i].pid == x);
            }
            if exists|i: int| 0 <= i < j + 1 && (#[trigger] s[i]).pid == x {
                let i = choose|i: int| 0 <= i < j + 1 && (#[trigger] s[i]).pid == x;
                if i < j {
                    assert(before.contains(x));
                }
            }
        }
        j += 1;
    }
    pids
}

/// The parent key of every record.
fn parent_keys(snapshot: &Vec<ProcessRecord>, adopt: bool) -> (keys: Vec<Option<u32>>)
    ensures
        keys@.len() == snapshot@.len(),
        forall|j: int|
            0 <= j < keys@.len() ==> #[trigger] keys@[j] == parent_key(snapshot.deep_view(), j, adopt),
{
    let pids = live_pids(snapshot);
    let mut keys: Vec<Option<u32>> = Vec::new();
    let mut j: usize = 0;
    while j < snapshot.len()
        invariant
            j <= snapshot.len(),
            keys@.len() == j,
            forall|pid: u32| pids@.contains(pid) <==> is_live(snapshot.deep_view(), pid),
            forall|i: int|
                0 <= i < j ==> #[trigger] keys@[i] == parent_key(snapshot.deep_view(), i, adopt),
        decreases snapshot.len() - j,
    {
        let parent = snapshot[j].parent_pid;
        assert(snapshot.deep_view()[j as int].parent_pid == parent);
        let key = if !adopt {
            Some(parent)
        } else if pids.contains(&parent) {
            Some(parent)
        } else if parent == 0 {
            None
        } else {
            Some(0u32)
        };
        keys.push(key);
        j += 1;
    }
    keys
}

/// The positions below `n` of the records whose parent key is `pid`,
/// ascending.
spec fn offered_upto(s: Seq<Record>, adopt: bool, pid: u32, n: nat) -> Seq<int>
    decreases n,
{
    if n == 0 {
        Seq::empty()
    } else if parent_key(s, n - 1, adopt) == Some(pid) {
        offered_upto(s, adopt, pid, (n - 1) as nat).push(n - 1)
    } else {
        offered_upto(s, adopt, pid, (n - 1) as nat)
    }
}

/// The positions from `j` on of the records whose parent key is `pid`,
/// ascending.
spec fn offered_from(s: Seq<Record>, adopt: bool, pid: u32, j: int) -> Seq<int>
    decreases s.len() - j,
{
    if j < 0 || j >= s.len() {
        Seq::empty()
    } else if parent_key(s, j, adopt) == Some(pid) {
        seq![j] + offered_from(s, adopt, pid, j + 1)
    } else {
        offered_from(s, adopt, pid, j + 1)
    }
}

/// The list after the records at the listed positions were offered to the
/// node at `head`: a record is attached where the list does not hold its
/// pid yet.
spec fn attach_listed(s: Seq<Record>, arena: Seq<Slot>, head: int, list: Seq<int>) -> Seq<Slot>
    decreases list.len(),
{
    if list.len() == 0 {
        arena
    } else if !holds_pid(arena, s[list[0]].pid) {
        attach_listed(
            s,
            arena.push(Slot { pid: s[list[0]].pid, name: s[list[0]].name, parent: head }),
            head,
            list.skip(1),
        )
    } else {
        attach_listed(s, arena, head, list.skip(1))
    }
}

/// The positions that the index holds for a pid.
spec fn positions(index: Map<u32, Vec<usize>>, pid: u32) -> Seq<int> {
    if index.contains_key(pid) {
        index[pid]@.map_values(|j: usize| j as int)
    } else {
        Seq::empty()
    }
}

/// The index holds, for the pid, the positions below `n` of the records
/// that have it as their parent key.
spec fn index_holds(index: Map<u32, Vec<usize>>, s: Seq<Record>, adopt: bool, pid: u32, n: nat) -> bool {
    positions(index, pid) == offered_upto(s, adopt, pid, n)
}

/// The positions below `n` are positions below `n`.
proof fn lemma_offered_range(s: Seq<Record>, adopt: bool, pid: u32, n: nat)
    ensures
        forall|i: int|
            0 <= i < offered_upto(s, adopt, pid, n).len() ==> 0 <= #[trigger] offered_upto(
                s,
                adopt,
                pid,
                n,
            )[i] < n,
    decreases n,
{
    if n > 0 {
        let m = (n - 1) as nat;
        lemma_offered_range(s, adopt, pid, m);
        let before = offered_upto(s, adopt, pid, m);
        let all = offered_upto(s, adopt, pid, n);
        assert forall|i: int| 0 <= i < all.len() implies 0 <= #[trigger] all[i] < n by {
            if i < before.len() {
                assert(all[i] == before[i]);
                assert(0 <= before[i] < m);
            }
        }
    }
}

/// The positions below `n` and those from `n` on are, together, all.
proof fn lemma_offered_joined(s: Seq<Record>, adopt: bool, pid: u32, n: nat)
    requires
        n <= s.len(),
    ensures
        offered_upto(s, adopt, pid, n) + offered_from(s, adopt, pid, n as int) == offered_from(
            s,
            adopt,
            pid,
            0,
        ),
    decreases n,
{
    if n == 0 {
        assert(Seq::<int>::empty() + offered_from(s, adopt, pid, 0) =~= offered_from(s, adopt, pid, 0));
    } else {
        let m = (n - 1) as nat;
        lemma_offered_joined(s, adopt, pid, m);
        let before = offered_upto(s, adopt, pid, m);
        let rest = offered_from(s, adopt, pid, n as int);
        if parent_key(s, m as int, adopt) == Some(pid) {
            assert(before.push(m as int) + rest =~= before + (seq![m as int] + rest));
        }
    }
}

/// Offering every record to a node is offering it those that have its
/// pid as their parent key.
proof fn lemma_attach_listed(s: Seq<Record>, adopt: bool, arena: Seq<Slot>, head: int, j: int)
    requires
        0 <= head < arena.len(),
        0 <= j <= s.len(),
    ensures
        attach_from(s, adopt, arena, head, j) == attach_listed(
            s,
            arena,
            head,
            offered_from(s, adopt, arena[head].pid, j),
        ),
    decreases s.len() - j,
{
    if j < s.len() {
        let pid = arena[head].pid;
        let rest = offered_from(s, adopt, pid, j + 1);
        if parent_key(s, j, adopt) == Some(pid) {
            let list = seq![j] + rest;
            assert(list.skip(1) =~= rest);
            assert(list[0] == j);
            if !holds_pid(arena, s[j].pid) {
                let next = arena.push(Slot { pid: s[j].pid, name: s[j].name, parent: head });
                assert(next[head].pid == pid);
                lemma_attach_listed(s, adopt, next, head, j + 1);
            } else {
                lemma_attach_listed(s, adopt, arena, head, j + 1);
            }
        } else {
            lemma_attach_listed(s, adopt, arena, head, j + 1);
        }
    }
}

/// The index from each pid to the records that have it as their parent
/// key, in snapshot order. It is built once for all the trees of a
/// snapshot.
fn children_index(
    snapshot: &Vec<ProcessRecord>,
    keys: &Vec<Option<u32>>,
    Ghost(adopt): Ghost<bool>,
) -> (index: HashMap<u32, Vec<usize>>)
    requires
        keys@.len() == snapshot@.len(),
        forall|j: int|
            0 <= j < keys@.len() ==> #[trigger] keys@[j] == parent_key(snapshot.deep_view(), j, adopt),
    ensures
        forall|pid: u32|
            #[trigger] index_holds(index@, snapshot.deep_view(), adopt, pid, snapshot@.len()),
{
    let ghost s = snapshot.deep_view();
    let mut index: HashMap<u32, Vec<usize>> = HashMap::new();
    let mut j: usize = 0;
    while j < snapshot.len()
        invariant
            s == snapshot.deep_view(),
            keys@.len() == snapshot@.len(),
            forall|i: int| 0 <= i < keys@.len() ==> #[trigger] keys@[i] == parent_key(s, i, adopt),
            j <= snapshot@.len(),
            forall|pid: u32| #[trigger] index_holds(index@, s, adopt, pid, j as nat),
        decreases snapshot@.len() - j,
    {
        let ghost before = index@;
        match keys[j] {
            Some(key) => {
                assert(index_holds(before, s, adopt, key, j as nat));
                let mut list = match index.remove(&key) {
                    Some(list) => list,
                    None => Vec::new(),
                };
                assert(list@.map_values(|x: usize| x as int) =~= positions(before, key));
                list.push(j);
                assert(list@.map_values(|x: usize| x as int) =~= positions(before, key).push(
                    j as int,
                ));
                index.insert(key, list);
                assert forall|pid: u32| #[trigger]
                    index_holds(index@, s, adopt, pid, (j + 1) as nat) by {
                    assert(index_holds(before, s, adopt, pid, j as nat));
                    if pid != key {
                        assert(positions(index@, pid) == positions(before, pid));
                    }
                }
            },
            None => {
                assert forall|pid: u32| #[trigger]
                    index_holds(index@, s, adopt, pid, (j + 1) as nat) by {
                    assert(index_holds(before, s, adopt, pid, j as nat));
                }
            },
        }
        j += 1;
    }
    index
}

/// Grows the list of nodes from a root, breadth first. Each node in turn
/// is offered the records that the index holds for its pid.
fn grow(
    snapshot: &Vec<ProcessRecord>,
    index: &HashMap<u32, Vec<usize>>,
    Ghost(adopt): Ghost<bool>,
    pid: u32,
    record: Option<usize>,
) -> (entries: Vec<Entry>)
    requires
        record matches Some(r) ==> r < snapshot@.len(),
        forall|p: u32|
            #[trigger] index_holds(index@, snapshot.deep_view(), adopt, p, snapshot@.len()),
    ensures
        entries_fit(snapshot.deep_view(), entries@),
        entries@.len() > 0,
        slots_of(snapshot.deep_view(), entries@) == grow_from(
            snapshot.deep_view(),
            adopt,
            seq![slot_of(snapshot.deep_view(), Entry { pid, record, parent: 0 })],
            0,
        ),
{
    let ghost s = snapshot.deep_view();
    let ghost goal = grow_from(s, adopt, seq![slot_of(s, Entry { pid, record, parent: 0 })], 0);
    let mut entries: Vec<Entry> = Vec::new();
    let mut visited: HashSet<u32> = HashSet::new();
    entries.push(Entry { pid, record, parent: 0 });
    visited.insert(pid);
    assert(slots_of(s, entries@) =~= seq![slot_of(s, Entry { pid, record, parent: 0 })]);
    assert forall|x: u32| visited@.contains(x) <==> holds_pid(slots_of(s, entries@), x) by {
        let slots = slots_of(s, entries@);
        assert(slots[0].pid == pid);
        if holds_pid(slots, x) {
            let k = choose|k: int| 0 <= k < slots.len() && (#[trigger] slots[k]).pid == x;
        }
    }
    let mut head: usize = 0;
    while head < entries.len() && head <= snapshot.len()
        invariant
            s == snapshot.deep_view(),
            forall|p: u32| #[trigger] index_holds(index@, s, adopt, p, s.len()),
            entries_fit(s, entries@),
            entries@.len() > 0,
            head <= entries@.len(),
            forall|x: u32| visited@.contains(x) <==> holds_pid(slots_of(s, entries@), x),
            grow_from(s, adopt, slots_of(s, entries@), head as int) == goal,
        decreases snapshot@.len() + 1 - head,
    {
        let parent_pid = entries[head].pid;
        let ghost start = slots_of(s, entries@);
        let ghost offered = positions(index@, parent_pid);
        assert(start[head as int].pid == parent_pid);
        proof {
            assert(index_holds(index@, s, adopt, parent_pid, s.len()));
            lemma_offered_range(s, adopt, parent_pid, s.len());
            lemma_offered_joined(s, adopt, parent_pid, s.len());
            assert(offered + Seq::<int>::empty() =~= offered);
            lemma_attach_listed(s, adopt, start, head as int, 0);
            assert(attach_from(s, adopt, start, head as int, 0) == attach_listed(
                s,
                start,
                head as int,
                offered,
            ));
        }
        match index.get(&parent_pid) {
            Some(list) => {
                assert(offered == list@.map_values(|x: usize| x as int));
                assert(offered.skip(0) =~= offered);
                let mut i: usize = 0;
                while i < list.len()
                    invariant
                        s == snapshot.deep_view(),
                        offered == list@.map_values(|x: usize| x as int),
                        forall|k: int| 0 <= k < offered.len() ==> 0 <= #[trigger] offered[k] < s.len(),
                        entries_fit(s, entries@),
                        head < entries@.len(),
                        i <= list@.len(),
                        forall|x: u32| visited@.contains(x) <==> holds_pid(slots_of(s, entries@), x),
                        attach_listed(s, slots_of(s, entries@), head as int, offered.skip(i as int))
                            == attach_listed(s, start, head as int, offered),
                    decreases list@.len() - i,
                {
                    let ghost before = slots_of(s, entries@);
                    let ghost rest = offered.skip(i as int);
                    let j = list[i];
                    assert(offered[i as int] == j as int);
                    assert(rest[0] == j as int);
                    assert(rest.skip(1) =~= offered.skip(i + 1));
                    let child_pid = snapshot[j].pid;
                    assert(s[j as int].pid == child_pid);
                    if !visited.contains(&child_pid) {
                        entries.push(Entry { pid: child_pid, record: Some(j), parent: head });
                        visited.insert(child_pid);
                        let ghost after = slots_of(s, entries@);
                        assert(after =~= before.push(
                            Slot { pid: s[j as int].pid, name: s[j as int].name, parent: head as int },
                        ));
                        assert forall|x: u32| visited@.contains(x) <==> holds_pid(after, x) by {
                            assert(after[before.len() as int].pid == child_pid);
                            if holds_pid(before, x) {
                                let k = choose|k: int|
                                    0 <= k < before.len() && (#[trigger] before[k]).pid == x;
                                assert(after[k].pid == x);
                            }
                            if holds_pid(after, x) && x != child_pid {
                                let k = choose|k: int|
                                    0 <= k < after.len() && (#[trigger] after[k]).pid == x;
                                assert(before[k].pid == x);
                            }
                        }
                    }
                    i += 1;
                }
                assert(offered.skip(i as int) =~= Seq::<int>::empty());
            },
            None => {
                assert(offered =~= Seq::<int>::empty());
            },
        }
        head += 1;
    }
    entries
}

/// The views of nodes, in their order.
spec fn node_views(nodes: Seq<PidNode>) -> Seq<Tree> {
    Seq::new(nodes.len(), |i: int| nodes[i]@)
}

/// Builds the tree below the node at `k`.
fn assemble(snapshot: &Vec<ProcessRecord>, entries: &Vec<Entry>, k: usize) -> (node: PidNode)
    requires
        entries_fit(snapshot.deep_view(), entries@),
        k < entries@.len(),
    ensures
        node@ == subtree(slots_of(snapshot.deep_view(), entries@), k as int),
    decreases entries@.len() - k,
{
    let ghost s = snapshot.deep_view();
    let ghost arena = slots_of(s, entries@);
    let name = match entries[k].record {
        Some(r) => {
            assert(s[r as int].name == snapshot@[r as int].executable_name@);
            snapshot[r].executable_name.clone()
        },
        None => String::new(),
    };
    assert(name@ == arena[k as int].name);
    let mut children: Vec<PidNode> = Vec::new();
    let n = entries.len();
    let mut c: usize = k + 1;
    assert(node_views(children@) =~= Seq::<Tree>::empty());
    while c < n
        invariant
            n == entries@.len(),
            s == snapshot.deep_view(),
            arena == slots_of(s, entries@),
            entries_fit(s, entries@),
            k < c <= entries@.len(),
            node_views(children@) + children_from(arena, k as int, c as int) == children_from(
                arena,
                k as int,
                k + 1,
            ),
        decreases entries@.len() - c,
    {
        assert(arena[c as int].parent == entries@[c as int].parent);
        if entries[c].parent == k {
            let ghost before = node_views(children@);
            let child = assemble(snapshot, entries, c);
            children.push(child);
            assert(node_views(children@) =~= before.push(subtree(arena, c as int)));
            assert(before.push(subtree(arena, c as int)) + children_from(arena, k as int, c + 1)
                =~= before + children_from(arena, k as int, c as int));
        }
        c += 1;
    }
    assert(node_views(children@) + Seq::<Tree>::empty() =~= node_views(children@));
    let node = PidNode {
        pid: entries[k].pid,
        process_info: ProcessInfo { name, path: String::new(), arg: String::new() },
        children,
    };
    proof {
        lemma_children_view(node);
        assert(node@.children =~= node_views(node.children@));
    }
    node
}

/// The position of the first record with the given pid.
fn first_position(snapshot: &Vec<ProcessRecord>, pid: u32) -> (i: usize)
    ensures
        i == first_record(snapshot.deep_view(), pid),
        i <= snapshot@.len(),
{
    let ghost pids = record_pids(snapshot.deep_view());
    let mut i: usize = 0;
    while i < snapshot.len() && snapshot[i].pid != pid
        invariant
            i <= snapshot@.len(),
            pids == record_pids(snapshot.deep_view()),
            forall|j: int| 0 <= j < i ==> pids[j] != pid,
        decreases snapshot@.len() - i,
    {
        i += 1;
    }
    proof {
        if i < snapshot@.len() {
            assert(pids[i as int] == snapshot@[i as int].pid);
        }
        lemma_terminator_index_unique(pids, pid, i as int);
    }
    i
}

/// Builds the tree of the process `pid` and its descendants from a
/// snapshot. The root is made from the first record with that pid; where
/// there is none the process is not found and the result is `None`. The
/// nodes carry the names of their records, and neither path nor arguments.
pub fn find_by_pid(snapshot: &Vec<ProcessRecord>, pid: u32) -> (tree: Option<PidNode>)
    ensures
        tree is Some <==> is_live(snapshot.deep_view(), pid),
        tree is Some <==> down_tree(snapshot.deep_view(), pid) is Some,
        tree matches Some(t) ==> down_tree(snapshot.deep_view(), pid) == Some(t@),
        tree matches Some(t) ==> t@.pid == pid && pids_distinct(t@),
        tree matches Some(t) ==> made_of_records(snapshot.deep_view(), false, t@),
        tree matches Some(t) ==> forall|x: u32|
            tree_count(t@, x) > 0 <==> #[trigger] descends(snapshot.deep_view(), false, pid, x),
{
    let ghost s = snapshot.deep_view();
    let i = first_position(snapshot, pid);
    proof {
        lemma_terminator_index(record_pids(s), pid);
        if i < s.len() {
            assert(record_pids(s)[i as int] == s[i as int].pid);
        } else {
            assert forall|j: int| 0 <= j < s.len() implies (#[trigger] s[j]).pid != pid by {
                assert(record_pids(s)[j] != pid);
            }
        }
    }
    if i >= snapshot.len() {
        return None;
    }
    proof {
        lemma_down_tree(s, pid);
    }
    let keys = parent_keys(snapshot, false);
    let index = children_index(snapshot, &keys, Ghost(false));
    let entries = grow(snapshot, &index, Ghost(false), pid, Some(i));
    Some(assemble(snapshot, &entries, 0))
}


/// The position of the last record with the given pid, or -1 where there
/// is none.
pub open spec fn latest_record(s: Seq<Record>, pid: u32) -> int
    decreases s.len(),
{
    if s.len() == 0 {
        -1
    } else if s.last().pid == pid {
        s.len() - 1
    } else {
        latest_record(s.drop_last(), pid)
    }
}

/// `latest_record` is the last position that holds the pid.
pub proof fn lemma_latest_record(s: Seq<Record>, pid: u32)
    ensures
        -1 <= latest_record(s, pid) < s.len(),
        latest_record(s, pid) >= 0 ==> s[latest_record(s, pid)].pid == pid,
        forall|j: int| latest_record(s, pid) < j < s.len() ==> (#[trigger] s[j]).pid != pid,
    decreases s.len(),
{
    if s.len() > 0 && s.last().pid != pid {
        lemma_latest_record(s.drop_last(), pid);
        assert forall|j: int| latest_record(s, pid) < j < s.len() implies (#[trigger] s[j]).pid
            != pid by {
            if j < s.len() - 1 {
                assert(s.drop_last()[j].pid != pid);
            }
        }
    }
}

/// A tree with one more node above it.
pub open spec fn tree_above(t: Tree, pid: u32, name: Seq<char>) -> Tree {
    Tree {
        pid,
        info: Info { name, path: Seq::empty(), arg: Seq::empty() },
        children: seq![t],
    }
}

/// The parent that is put above the tree `t`, as the position of its
/// record: the last record of the root's pid names the parent, and the
/// last record of the parent's pid stands for the parent. There is none
/// where either record is missing, and none where the tree already holds
/// the parent's pid.
pub open spec fn parent_above(s: Seq<Record>, t: Tree) -> Option<int> {
    let own = latest_record(s, t.pid);
    if own < 0 {
        None
    } else {
        let parent = latest_record(s, s[own].parent_pid);
        if parent < 0 || found_in(t, s[own].parent_pid) is Some {
            None
        } else {
            Some(parent)
        }
    }
}

/// The tree `t` with its ancestors put above it, one at a time and at
/// most `fuel` of them.
///
/// With as much fuel as the snapshot has records the walk comes to its
/// end before the fuel does (`lemma_up_tree_complete` in `laws`).
pub open spec fn up_tree(s: Seq<Record>, t: Tree, fuel: nat) -> Tree
    decreases fuel,
{
    if fuel == 0 {
        t
    } else {
        match parent_above(s, t) {
            None => t,
            Some(parent) => up_tree(
                s,
                tree_above(t, s[parent].pid, s[parent].name),
                (fuel - 1) as nat,
            ),
        }
    }
}

/// The number of ancestors that `up_tree` puts above `t`.
pub open spec fn ancestors_above(s: Seq<Record>, t: Tree, fuel: nat) -> nat
    decreases fuel,
{
    if fuel == 0 {
        0
    } else {
        match parent_above(s, t) {
            None => 0,
            Some(parent) => 1 + ancestors_above(
                s,
                tree_above(t, s[parent].pid, s[parent].name),
                (fuel - 1) as nat,
            ),
        }
    }
}

/// The tree reached from `t` by stepping `depth` times to the first child.
pub open spec fn spine(t: Tree, depth: nat) -> Tree
    decreases depth,
{
    if depth == 0 {
        t
    } else if t.children.len() == 0 {
        t
    } else {
        spine(t.children[0], (depth - 1) as nat)
    }
}

/// The law of the ancestor walk: every node that `up_tree` puts above `t`
/// has exactly one child, and stepping down from the top once for each of
/// them leads back to `t`.
pub proof fn lemma_up_tree_spine(s: Seq<Record>, t: Tree, fuel: nat)
    ensures
        spine(up_tree(s, t, fuel), ancestors_above(s, t, fuel)) == t,
        forall|d: nat|
            d < ancestors_above(s, t, fuel) ==> (#[trigger] spine(up_tree(s, t, fuel), d)).children.len()
                == 1,
    decreases fuel,
{
    if fuel > 0 {
        match parent_above(s, t) {
            None => {},
            Some(parent) => {
                let above = tree_above(t, s[parent].pid, s[parent].name);
                let rest = (fuel - 1) as nat;
                lemma_up_tree_spine(s, above, rest);
                let top = up_tree(s, t, fuel);
                let count = ancestors_above(s, above, rest);
                lemma_spine_add(top, count, 1);
                assert(spine(above, 1) == t) by {
                    assert(spine(t, 0) == t);
                }
                assert forall|d: nat| d < count + 1 implies (#[trigger] spine(top, d)).children.len()
                    == 1 by {
                    if d == count {
                        assert(spine(top, count) == above);
                    }
                }
            },
        }
    }
}

/// Stepping down `a` times and then `b` times is stepping down `a + b`
/// times.
pub proof fn lemma_spine_add(t: Tree, a: nat, b: nat)
    ensures
        spine(t, a + b) == spine(spine(t, a), b),
    decreases a,
{
    if a > 0 {
        if t.children.len() == 0 {
            lemma_spine_leaf(t, b);
        } else {
            lemma_spine_add(t.children[0], (a - 1) as nat, b);
        }
    }
}

/// Stepping down from a node without children stays there.
pub proof fn lemma_spine_leaf(t: Tree, depth: nat)
    requires
        t.children.len() == 0,
    ensures
        spine(t, depth) == t,
{
}

/// What the index holds for a pid: the position of its last record, and
/// nothing where it has none.
spec fn indexed(index: Map<u32, usize>, s: Seq<Record>, pid: u32) -> bool {
    &&& index.contains_key(pid) <==> latest_record(s, pid) >= 0
    &&& index.contains_key(pid) ==> index[pid] as int == latest_record(s, pid)
}

/// The index from each pid to the position of its last record.
fn index_by_pid(snapshot: &Vec<ProcessRecord>) -> (index: HashMap<u32, usize>)
    ensures
        forall|pid: u32| #[trigger] indexed(index@, snapshot.deep_view(), pid),
{
    let ghost s = snapshot.deep_view();
    let mut index: HashMap<u32, usize> = HashMap::new();
    let mut j: usize = 0;
    assert(s.take(0).len() == 0);
    while j < snapshot.len()
        invariant
            s == snapshot.deep_view(),
            j <= snapshot@.len(),
            forall|pid: u32| #[trigger] indexed(index@, s.take(j as int), pid),
        decreases snapshot@.len() - j,
    {
        let ghost before = index@;
        let ghost part = s.take(j + 1);
        let pid = snapshot[j].pid;
        assert(part.last() == s[j as int]);
        assert(part.drop_last() =~= s.take(j as int));
        index.insert(pid, j);
        assert forall|x: u32| #[trigger] indexed(index@, part, x) by {
            assert(indexed(before, s.take(j as int), x));
        }
        j += 1;
    }
    assert(s.take(j as int) =~= s);
    index
}

/// Puts the ancestors of a tree above it: the parent of its root, then
/// the parent of that one, and so on, each with the tree so far as its
/// only child. The walk ends where a parent has no record in the
/// snapshot, and where it would lead to a pid that the tree already holds.
pub fn add_parent(snapshot: &Vec<ProcessRecord>, root: PidNode) -> (top: PidNode)
    ensures
        top@ == up_tree(snapshot.deep_view(), root@, snapshot@.len()),
        spine(top@, ancestors_above(snapshot.deep_view(), root@, snapshot@.len())) == root@,
        parent_above(snapshot.deep_view(), top@) is None,
        pids_distinct(root@) ==> pids_distinct(top@),
{
    proof {
        lemma_up_tree_spine(snapshot.deep_view(), root@, snapshot@.len());
        lemma_up_tree_complete(snapshot.deep_view(), root@);
        if pids_distinct(root@) {
            lemma_up_tree_distinct(snapshot.deep_view(), root@, snapshot@.len());
        }
    }
    let ghost s = snapshot.deep_view();
    let ghost start = root@;
    let ghost goal = up_tree(s, start, s.len());
    let n = snapshot.len();
    let index = index_by_pid(snapshot);
    let mut head = root;
    let mut steps: usize = 0;
    while steps < n
        invariant
            s == snapshot.deep_view(),
            n == snapshot@.len(),
            forall|pid: u32| #[trigger] indexed(index@, s, pid),
            steps <= n,
            goal == up_tree(s, start, s.len()),
            start == root@,
            spine(goal, ancestors_above(s, start, s.len())) == start,
            parent_above(s, goal) is None,
            pids_distinct(start) ==> pids_distinct(goal),
            up_tree(s, head@, (n - steps) as nat) == goal,
        decreases n - steps,
    {
        proof {
            lemma_latest_record(s, head.pid);
        }
        assert(indexed(index@, s, head.pid));
        let own = match index.get(&head.pid) {
            Some(i) => *i,
            None => {
                assert(parent_above(s, head@) is None);
                assert(up_tree(s, head@, (n - steps) as nat) == head@);
                return head;
            },
        };
        let parent_pid = snapshot[own].parent_pid;
        assert(s[own as int].parent_pid == parent_pid);
        proof {
            lemma_latest_record(s, parent_pid);
        }
        assert(indexed(index@, s, parent_pid));
        let parent = match index.get(&parent_pid) {
            Some(k) => *k,
            None => {
                assert(parent_above(s, head@) is None);
                assert(up_tree(s, head@, (n - steps) as nat) == head@);
                return head;
            },
        };
        if find_child(&head, parent_pid).is_some() {
            assert(parent_above(s, head@) is None);
            assert(up_tree(s, head@, (n - steps) as nat) == head@);
            return head;
        }
        assert(parent_above(s, head@) == Some(parent as int));
        let ghost below = head@;
        let name = snapshot[parent].executable_name.clone();
        assert(name@ == s[parent as int].name);
        let mut children: Vec<PidNode> = Vec::new();
        children.push(head);
        head = PidNode {
            pid: parent_pid,
            process_info: ProcessInfo { name, path: String::new(), arg: String::new() },
            children,
        };
        proof {
            lemma_children_view(head);
            assert(head@.children =~= seq![below]);
            assert(head@ == tree_above(below, s[parent as int].pid, s[parent as int].name));
        }
        steps += 1;
    }
    head
}


/// An ascending list of pids with `pid` put in its place, unless the list
/// holds it already.
pub open spec fn insert_root(roots: Seq<u32>, pid: u32) -> Seq<u32>
    decreases roots.len(),
{
    if roots.len() == 0 {
        seq![pid]
    } else if roots.last() == pid {
        roots
    } else if roots.last() < pid {
        roots.push(pid)
    } else {
        insert_root(roots.drop_last(), pid).push(roots.last())
    }
}

/// The root pids among the first `n` records, ascending: pid 0, and the
/// pid of every record that has no parent key under adoption.
pub open spec fn root_pids_upto(s: Seq<Record>, n: nat) -> Seq<u32>
    decreases n,
{
    if n == 0 {
        seq![0u32]
    } else {
        let before = root_pids_upto(s, (n - 1) as nat);
        if parent_key(s, n - 1, true) is None {
            insert_root(before, s[n - 1].pid)
        } else {
            before
        }
    }
}

/// The root pids of a snapshot, ascending.
pub open spec fn root_pids(s: Seq<Record>) -> Seq<u32> {
    root_pids_upto(s, s.len())
}

/// The name of a root: that of the first record with its pid, and the
/// empty name where no record has it.
pub open spec fn root_name(s: Seq<Record>, pid: u32) -> Seq<char> {
    let i = first_record(s, pid);
    if i < s.len() {
        s[i].name
    } else {
        Seq::empty()
    }
}

/// The tree of one root of the forest.
pub open spec fn root_tree(s: Seq<Record>, pid: u32) -> Tree {
    grown_tree(s, true, pid, root_name(s, pid))
}

/// The forest of a snapshot: one tree for each root pid, by ascending
/// pid, each grown with adoption.
pub open spec fn forest(s: Seq<Record>) -> Seq<Tree> {
    Seq::new(root_pids(s).len(), |k: int| root_tree(s, root_pids(s)[k]))
}

/// Inserting at `p` is what `insert_root` does, where `p` parts the pids
/// up to `pid` from those above it.
proof fn lemma_insert_root_at(roots: Seq<u32>, pid: u32, p: int)
    requires
        0 <= p <= roots.len(),
        p > 0 ==> roots[p - 1] <= pid,
        forall|q: int| p <= q < roots.len() ==> #[trigger] roots[q] > pid,
    ensures
        insert_root(roots, pid) == (if p > 0 && roots[p - 1] == pid {
            roots
        } else {
            roots.insert(p, pid)
        }),
    decreases roots.len() - p,
{
    if roots.len() == 0 {
        assert(roots.insert(p, pid) =~= seq![pid]);
    } else if p == roots.len() {
        assert(roots.insert(p, pid) =~= roots.push(pid));
    } else {
        assert(roots.last() > pid);
        lemma_insert_root_at(roots.drop_last(), pid, p);
        if p > 0 && roots[p - 1] == pid {
            assert(roots.drop_last().push(roots.last()) =~= roots);
        } else {
            assert(roots.drop_last().insert(p, pid).push(roots.last()) =~= roots.insert(p, pid));
        }
    }
}

/// A pid that an ascending list holds is not put into it again.
proof fn lemma_insert_root_present(roots: Seq<u32>, pid: u32)
    requires
        strictly_ascending(roots),
        roots.contains(pid),
    ensures
        insert_root(roots, pid) == roots,
    decreases roots.len(),
{
    let at = choose|at: int| 0 <= at < roots.len() && roots[at] == pid;
    let last = roots.len() - 1;
    if roots[last] != pid {
        assert(roots[at] < roots[last]);
        let front = roots.drop_last();
        assert(front[at] == pid);
        assert forall|a: int, b: int| 0 <= a < b < front.len() implies front[a] < front[b] by {
            assert(front[a] == roots[a] && front[b] == roots[b]);
        }
        lemma_insert_root_present(front, pid);
        assert(front.push(roots.last()) =~= roots);
    }
}

/// The root pids of a snapshot, ascending. A set tells which pids the
/// list holds already; the list is kept in order while it is filled.
fn collect_roots(snapshot: &Vec<ProcessRecord>, keys: &Vec<Option<u32>>) -> (roots: Vec<u32>)
    requires
        keys@.len() == snapshot@.len(),
        forall|j: int|
            0 <= j < keys@.len() ==> #[trigger] keys@[j] == parent_key(snapshot.deep_view(), j, true),
    ensures
        roots@ == root_pids(snapshot.deep_view()),
{
    let ghost s = snapshot.deep_view();
    let mut roots: Vec<u32> = Vec::new();
    let mut seen: HashSet<u32> = HashSet::new();
    roots.push(0);
    seen.insert(0);
    assert(roots@ =~= seq![0u32]);
    assert forall|x: u32| seen@.contains(x) <==> roots@.contains(x) by {
        assert(roots@[0] == 0u32);
        if roots@.contains(x) {
            let i = choose|i: int| 0 <= i < roots@.len() && roots@[i] == x;
        }
    }
    let mut j: usize = 0;
    while j < snapshot.len()
        invariant
            s == snapshot.deep_view(),
            keys@.len() == snapshot@.len(),
            forall|i: int| 0 <= i < keys@.len() ==> #[trigger] keys@[i] == parent_key(s, i, true),
            j <= snapshot@.len(),
            roots@ == root_pids_upto(s, j as nat),
            forall|x: u32| seen@.contains(x) <==> roots@.contains(x),
        decreases snapshot@.len() - j,
    {
        proof {
            lemma_root_pids_upto(s, j as nat);
        }
        if keys[j].is_none() {
            let pid = snapshot[j].pid;
            assert(s[j as int].pid == pid);
            let ghost before = roots@;
            if seen.insert(pid) {
                let mut p: usize = roots.len();
                while p > 0 && roots[p - 1] > pid
                    invariant
                        p <= roots@.len(),
                        forall|q: int| p <= q < roots@.len() ==> #[trigger] roots@[q] > pid,
                    decreases p,
                {
                    p -= 1;
                }
                proof {
                    lemma_insert_root_at(roots@, pid, p as int);
                    if p > 0 && roots@[p - 1] == pid {
                        assert(roots@.contains(pid));
                    }
                }
                roots.insert(p, pid);
                assert forall|x: u32| seen@.contains(x) <==> roots@.contains(x) by {
                    assert(roots@[p as int] == pid);
                    if before.contains(x) {
                        let i = choose|i: int| 0 <= i < before.len() && before[i] == x;
                        if i < p {
                            assert(roots@[i] == x);
                        } else {
                            assert(roots@[i + 1] == x);
                        }
                    }
                    if roots@.contains(x) && x != pid {
                        let i = choose|i: int| 0 <= i < roots@.len() && roots@[i] == x;
                        if i < p {
                            assert(before[i] == x);
                        } else {
                            assert(before[i - 1] == x);
                        }
                    }
                }
            } else {
                proof {
                    lemma_insert_root_present(roots@, pid);
                }
            }
        }
        j += 1;
    }
    roots
}

/// Builds the forest of a snapshot: the tree of pid 0, which is there
/// whether or not a record has that pid, and the tree of every process
/// whose parent pid is 0 while no record has pid 0. A process whose parent
/// is missing from the snapshot stands under pid 0. The trees come by
/// ascending root pid.
pub fn list_all(snapshot: &Vec<ProcessRecord>) -> (trees: Vec<PidNode>)
    ensures
        trees.deep_view() == forest(snapshot.deep_view()),
        trees@.len() == root_pids(snapshot.deep_view()).len(),
        strictly_ascending(root_pids(snapshot.deep_view())),
        forall|k: int|
            0 <= k < trees@.len() ==> (#[trigger] trees@[k])@.pid == root_pids(
                snapshot.deep_view(),
            )[k] && pids_distinct(trees@[k]@) && made_of_records(
                snapshot.deep_view(),
                true,
                trees@[k]@,
            ),
        trees@.len() > 0,
        trees@[0]@.pid == 0,
{
    let ghost s = snapshot.deep_view();
    let keys = parent_keys(snapshot, true);
    let index = children_index(snapshot, &keys, Ghost(true));
    let roots = collect_roots(snapshot, &keys);
    let mut trees: Vec<PidNode> = Vec::new();
    let mut k: usize = 0;
    while k < roots.len()
        invariant
            s == snapshot.deep_view(),
            forall|p: u32| #[trigger] index_holds(index@, s, true, p, s.len()),
            roots@ == root_pids(s),
            k <= roots@.len(),
            trees@.len() == k,
            forall|i: int| 0 <= i < k ==> (#[trigger] trees@[i])@ == root_tree(s, roots@[i]),
        decreases roots@.len() - k,
    {
        let pid = roots[k];
        let i = first_position(snapshot, pid);
        let record = if i < snapshot.len() {
            Some(i)
        } else {
            None
        };
        let entries = grow(snapshot, &index, Ghost(true), pid, record);
        let tree = assemble(snapshot, &entries, 0);
        assert(tree@ == root_tree(s, pid));
        trees.push(tree);
        k += 1;
    }
    assert(trees.deep_view() =~= forest(s));
    proof {
        lemma_root_pids_upto(s, s.len());
        let pids = root_pids(s);
        assert(pids.contains(0u32));
        let at = choose|at: int| 0 <= at < pids.len() && pids[at] == 0u32;
        if at > 0 {
            assert(pids[0] < pids[at]);
        }
        assert forall|k: int| 0 <= k < trees@.len() implies (#[trigger] trees@[k])@.pid == pids[k]
            && pids_distinct(trees@[k]@) && made_of_records(s, true, trees@[k]@) by {
            lemma_grown_tree(s, true, pids[k], root_name(s, pids[k]));
            lemma_grown_tree_made(s, true, pids[k], root_name(s, pids[k]));
        }
    }
    trees
}

} // verus!
