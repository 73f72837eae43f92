//! The order in which the children of a node are displayed.

use vstd::prelude::*;
use crate::process::{PidNode, Tree};

verus! {

/// The pids of a sequence of trees, position by position.
pub open spec fn pids_of(trees: Seq<Tree>) -> Seq<u32> {
    Seq::new(trees.len(), |i: int| trees[i].pid)
}

/// The pids of a sequence of nodes, position by position.
pub open spec fn node_pids(nodes: Seq<PidNode>) -> Seq<u32> {
    Seq::new(nodes.len(), |i: int| nodes[i].pid)
}

/// Position `a` comes before position `b` where its pid is smaller, or the
/// pids are equal and `a` is the earlier position.
pub open spec fn precedes(pids: Seq<u32>, a: int, b: int) -> bool {
    pids[a] < pids[b] || (pids[a] == pids[b] && a < b)
}

/// `order` lists positions of `pids`, each before every later one in the
/// sense of `precedes`.
pub open spec fn is_ascending(pids: Seq<u32>, order: Seq<int>) -> bool {
    &&& forall|i: int| 0 <= i < order.len() ==> 0 <= #[trigger] order[i] < pids.len()
    &&& forall|i: int, j: int|
        0 <= i < j < order.len() ==> precedes(pids, #[trigger] order[i], #[trigger] order[j])
}

/// `order` with position `x` put behind the last entry whose pid is not
/// greater than that of `x`.
pub open spec fn insert_position(pids: Seq<u32>, order: Seq<int>, x: int) -> Seq<int>
    decreases order.len(),
{
    if order.len() == 0 {
        seq![x]
    } else if pids[order.last()] <= pids[x] {
        order.push(x)
    } else {
        insert_position(pids, order.drop_last(), x).push(order.last())
    }
}

/// The first `n` positions of `pids` by ascending pid; positions of equal
/// pids keep their order.
pub open spec fn pid_order_upto(pids: Seq<u32>, n: nat) -> Seq<int>
    decreases n,
{
    if n == 0 {
        Seq::empty()
    } else {
        insert_position(pids, pid_order_upto(pids, (n - 1) as nat), n - 1)
    }
}

/// All positions of `pids` by ascending pid; positions of equal pids keep
/// their order.
pub open spec fn pid_order(pids: Seq<u32>) -> Seq<int> {
    pid_order_upto(pids, pids.len())
}

/// The positions `0, 1, .., n - 1`.
pub open spec fn identity_order(n: nat) -> Seq<int> {
    Seq::new(n, |i: int| i)
}

/// The order in which children with the given pids are displayed: by
/// ascending pid where `sort` is set, as they stand otherwise.
pub open spec fn display_order(pids: Seq<u32>, sort: bool) -> Seq<int> {
    if sort {
        pid_order(pids)
    } else {
        identity_order(pids.len())
    }
}

/// Inserting at position `p` is what `insert_position` does, where `p`
/// parts the entries with a pid up to that of `x` from those above it.
proof fn lemma_insert_position_at(pids: Seq<u32>, order: Seq<int>, x: int, p: int)
    requires
        0 <= p <= order.len(),
        p > 0 ==> pids[order[p - 1]] <= pids[x],
        forall|q: int| p <= q < order.len() ==> pids[#[trigger] order[q]] > pids[x],
    ensures
        insert_position(pids, order, x) == order.insert(p, x),
    decreases order.len() - p,
{
    if order.len() == 0 {
        assert(order.insert(p, x) =~= seq![x]);
    } else if p == order.len() {
        assert(order.insert(p, x) =~= order.push(x));
    } else {
        lemma_insert_position_at(pids, order.drop_last(), x, p);
        assert(order.drop_last().insert(p, x).push(order.last()) =~= order.insert(p, x));
    }
}

/// Inserting a position that is greater than all listed ones keeps a
/// list ascending, and adds that position and no other.
proof fn lemma_insert_position_ascending(pids: Seq<u32>, order: Seq<int>, x: int)
    requires
        is_ascending(pids, order),
        0 <= x < pids.len(),
        forall|i: int| 0 <= i < order.len() ==> #[trigger] order[i] < x,
    ensures
        is_ascending(pids, insert_position(pids, order, x)),
        insert_position(pids, order, x).len() == order.len() + 1,
        insert_position(pids, order, x).to_multiset() == order.to_multiset().insert(x),
    decreases order.len(),
{
    broadcast use vstd::seq_lib::group_to_multiset_ensures;

    let result = insert_position(pids, order, x);
    if order.len() == 0 {
        assert(order =~= Seq::empty());
    } else if pids[order.last()] <= pids[x] {
        assert forall|i: int, j: int| 0 <= i < j < result.len() implies precedes(
            pids,
            #[trigger] result[i],
            #[trigger] result[j],
        ) by {
            if j == order.len() {
                assert(order[i] < x);
                if i < order.len() - 1 {
                    assert(precedes(pids, order[i], order[order.len() - 1]));
                }
            }
        }
    } else {
        let front = order.drop_last();
        let last = order.last();
        assert forall|i: int, j: int| 0 <= i < j < front.len() implies precedes(
            pids,
            #[trigger] front[i],
            #[trigger] front[j],
        ) by {
            assert(front[i] == order[i] && front[j] == order[j]);
        }
        assert forall|i: int| 0 <= i < front.len() implies #[trigger] front[i] < x by {
            assert(front[i] == order[i]);
        }
        lemma_insert_position_ascending(pids, front, x);
        let inner = insert_position(pids, front, x);
        assert(result == inner.push(last));
        assert forall|i: int| 0 <= i < inner.len() implies precedes(pids, #[trigger] inner[i], last) by {
            assert(inner.to_multiset().count(inner[i]) > 0);
            assert(front.to_multiset().insert(x).count(inner[i]) > 0);
            if inner[i] == x {
            } else {
                assert(front.to_multiset().count(inner[i]) > 0);
                assert(front.contains(inner[i]));
                let k = choose|k: int| 0 <= k < front.len() && front[k] == inner[i];
                assert(order[k] == inner[i]);
                assert(precedes(pids, order[k], order[order.len() - 1]));
            }
        }
        assert forall|i: int, j: int| 0 <= i < j < result.len() implies precedes(
            pids,
            #[trigger] result[i],
            #[trigger] result[j],
        ) by {
            if j < inner.len() {
                assert(precedes(pids, inner[i], inner[j]));
            } else {
                assert(precedes(pids, inner[i], last));
            }
        }
        assert(order =~= front.push(last));
        assert(front.push(last).to_multiset() =~= front.to_multiset().insert(last));
        assert(result.to_multiset() =~= order.to_multiset().insert(x));
    }
}

/// The law of sorted display: `pid_order_upto(pids, n)` lists each of the
/// first `n` positions exactly once, pids never descend along it, and
/// positions of equal pids keep their order.
pub proof fn lemma_pid_order_upto(pids: Seq<u32>, n: nat)
    requires
        n <= pids.len(),
    ensures
        is_ascending(pids, pid_order_upto(pids, n)),
        pid_order_upto(pids, n).len() == n,
        pid_order_upto(pids, n).to_multiset() == identity_order(n).to_multiset(),
        forall|i: int| 0 <= i < n ==> 0 <= #[trigger] pid_order_upto(pids, n)[i] < n,
    decreases n,
{
    broadcast use vstd::seq_lib::group_to_multiset_ensures;

    if n == 0 {
        assert(identity_order(0) =~= Seq::<int>::empty());
    } else {
        let m = (n - 1) as nat;
        lemma_pid_order_upto(pids, m);
        let before = pid_order_upto(pids, m);
        lemma_insert_position_ascending(pids, before, n - 1);
        let after = pid_order_upto(pids, n);
        assert(identity_order(n) =~= identity_order(m).push(n - 1));
        assert(identity_order(m).push(n - 1).to_multiset() =~= identity_order(m).to_multiset().insert(
            n - 1,
        ));
        assert forall|i: int| 0 <= i < n implies 0 <= #[trigger] after[i] < n by {
            assert(after.to_multiset().count(after[i]) > 0);
            if after[i] != n - 1 {
                assert(before.to_multiset().count(after[i]) > 0);
                assert(before.contains(after[i]));
                let k = choose|k: int| 0 <= k < before.len() && before[k] == after[i];
                assert(0 <= before[k] < m);
            }
        }
    }
}

/// The law of sorted display: where sorting is asked for, the display
/// order lists every position exactly once, pids never descend along it,
/// and positions of equal pids keep their order. Where it is not, the
/// positions come as they stand.
pub proof fn lemma_display_order(pids: Seq<u32>, sort: bool)
    ensures
        display_order(pids, sort).len() == pids.len(),
        forall|i: int|
            0 <= i < pids.len() ==> 0 <= #[trigger] display_order(pids, sort)[i] < pids.len(),
        display_order(pids, sort).to_multiset() == identity_order(pids.len()).to_multiset(),
        sort ==> forall|i: int, j: int|
            0 <= i < j < pids.len() ==> pids[#[trigger] display_order(pids, sort)[i]]
                <= pids[#[trigger] display_order(pids, sort)[j]],
        sort ==> is_ascending(pids, display_order(pids, sort)),
        !sort ==> forall|i: int| 0 <= i < pids.len() ==> #[trigger] display_order(pids, sort)[i] == i,
{
    if sort {
        lemma_pid_order_upto(pids, pids.len());
        let order = display_order(pids, sort);
        assert forall|i: int, j: int| 0 <= i < j < pids.len() implies pids[#[trigger] order[i]]
            <= pids[#[trigger] order[j]] by {
            assert(precedes(pids, order[i], order[j]));
        }
    }
}

/// The positions of `nodes` in display order.
pub fn ordered_positions(nodes: &Vec<PidNode>, sort: bool) -> (order: Vec<usize>)
    ensures
        order@.len() == nodes@.len(),
        forall|i: int| 0 <= i < order@.len() ==> order@[i] < nodes@.len(),
        order@.map_values(|x: usize| x as int) == display_order(node_pids(nodes@), sort),
{
    let ghost pids = node_pids(nodes@);
    let n = nodes.len();
    let mut order: Vec<usize> = Vec::new();
    let mut x: usize = 0;
    while x < n
        invariant
            n == nodes@.len(),
            pids == node_pids(nodes@),
            x <= n,
            order@.len() == x,
            forall|i: int| 0 <= i < order@.len() ==> #[trigger] order@[i] < x,
            sort ==> order@.map_values(|v: usize| v as int) == pid_order_upto(pids, x as nat),
            !sort ==> order@.map_values(|v: usize| v as int) == identity_order(x as nat),
        decreases n - x,
    {
        let ghost before = order@.map_values(|v: usize| v as int);
        let mut p: usize = order.len();
        if sort {
            while p > 0 && nodes[order[p - 1]].pid > nodes[x].pid
                invariant
                    n == nodes@.len(),
                    pids == node_pids(nodes@),
                    x < n,
                    p <= order@.len(),
                    forall|i: int| 0 <= i < order@.len() ==> #[trigger] order@[i] < x,
                    before == order@.map_values(|v: usize| v as int),
                    forall|q: int| p <= q < before.len() ==> pids[#[trigger] before[q]] > pids[x as int],
                decreases p,
            {
                p -= 1;
            }
            proof {
                lemma_insert_position_at(pids, before, x as int, p as int);
            }
        }
        order.insert(p, x);
        proof {
            let after = order@.map_values(|v: usize| v as int);
            assert(after =~= before.insert(p as int, x as int));
            if !sort {
                assert(after =~= identity_order((x + 1) as nat));
            }
        }
        x += 1;
    }
    order
}

} // verus!
