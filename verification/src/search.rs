//! Looking a process up in a tree, breadth first.

use std::collections::VecDeque;
use vstd::prelude::*;
use crate::process::{lemma_children_view, PidNode, Tree};

verus! {

/// The number of nodes of a tree.
pub open spec fn tree_size(t: Tree) -> nat
    decreases t,
{
    1 + forest_size(t.children)
}

/// The number of nodes of a sequence of trees.
pub open spec fn forest_size(trees: Seq<Tree>) -> nat
    decreases trees,
{
    if trees.len() == 0 {
        0
    } else {
        forest_size(trees.drop_last()) + tree_size(trees.last())
    }
}

/// The size of two forests put together is the sum of their sizes.
pub proof fn lemma_forest_size_add(a: Seq<Tree>, b: Seq<Tree>)
    ensures
        forest_size(a + b) == forest_size(a) + forest_size(b),
    decreases b.len(),
{
    if b.len() == 0 {
        assert(a + b =~= a);
    } else {
        lemma_forest_size_add(a, b.drop_last());
        assert((a + b).drop_last() =~= a + b.drop_last());
        assert((a + b).last() == b.last());
    }
}

/// Taking the first tree out of a queue and putting its children at the
/// end leaves one node less.
pub proof fn lemma_queue_step(queue: Seq<Tree>)
    requires
        queue.len() > 0,
    ensures
        forest_size(queue.skip(1) + queue[0].children) + 1 == forest_size(queue),
{
    let first = seq![queue[0]];
    assert(queue =~= first + queue.skip(1));
    lemma_forest_size_add(first, queue.skip(1));
    lemma_forest_size_add(queue.skip(1), queue[0].children);
    assert(first.drop_last() =~= Seq::<Tree>::empty());
    assert(first.last() == queue[0]);
    assert(forest_size(first.drop_last()) == 0);
    assert(forest_size(first) == forest_size(first.drop_last()) + tree_size(first.last()));
}

/// The nodes reached from a queue of trees, breadth first: the first tree
/// of the queue, then what is reached from the rest of the queue with the
/// children of that tree put at its end.
pub open spec fn breadth_first(queue: Seq<Tree>) -> Seq<Tree>
    decreases forest_size(queue),
{
    if queue.len() == 0 {
        Seq::empty()
    } else {
        proof {
            lemma_queue_step(queue);
        }
        seq![queue[0]] + breadth_first(queue.skip(1) + queue[0].children)
    }
}

/// The first tree of `trees` with the given pid.
pub open spec fn first_with_pid(trees: Seq<Tree>, pid: u32) -> Option<Tree>
    decreases trees.len(),
{
    if trees.len() == 0 {
        None
    } else if trees[0].pid == pid {
        Some(trees[0])
    } else {
        first_with_pid(trees.skip(1), pid)
    }
}

/// The node of a tree that a breadth-first search for `pid` finds.
pub open spec fn found_in(t: Tree, pid: u32) -> Option<Tree> {
    first_with_pid(breadth_first(seq![t]), pid)
}

/// The views of the nodes of a queue.
spec fn queue_views(queue: Seq<&PidNode>) -> Seq<Tree> {
    Seq::new(queue.len(), |i: int| queue[i]@)
}

/// Finds the node with the given pid that a breadth-first walk from
/// `root` meets first.
pub fn find_child<'a>(root: &'a PidNode, pid: u32) -> (found: Option<&'a PidNode>)
    ensures
        found is Some <==> found_in(root@, pid) is Some,
        found matches Some(node) ==> found_in(root@, pid) == Some(node@),
        found matches Some(node) ==> node.pid == pid,
{
    let mut queue: VecDeque<&PidNode> = VecDeque::new();
    queue.push_back(root);
    assert(queue_views(queue@) =~= seq![root@]);
    loop
        invariant
            first_with_pid(breadth_first(queue_views(queue@)), pid) == found_in(root@, pid),
        decreases forest_size(queue_views(queue@)),
    {
        let ghost waiting = queue_views(queue@);
        let node = match queue.pop_front() {
            Some(node) => node,
            None => {
                assert(waiting =~= Seq::<Tree>::empty());
                return None;
            },
        };
        assert(waiting.len() > 0 && waiting[0] == node@);
        assert(queue_views(queue@) =~= waiting.skip(1));
        proof {
            lemma_queue_step(waiting);
            lemma_children_view(*node);
        }
        if node.pid == pid {
            assert(breadth_first(waiting)[0] == node@);
            return Some(node);
        }
        assert(first_with_pid(breadth_first(waiting), pid) == first_with_pid(
            breadth_first(waiting.skip(1) + node@.children),
            pid,
        )) by {
            let order = breadth_first(waiting);
            assert(order.skip(1) =~= breadth_first(waiting.skip(1) + node@.children));
        }
        let mut j: usize = 0;
        while j < node.children.len()
            invariant
                j <= node.children@.len(),
                node@.children.len() == node.children@.len(),
                forall|i: int|
                    0 <= i < node.children@.len() ==> #[trigger] node@.children[i]
                        == node.children@[i]@,
                queue_views(queue@) == waiting.skip(1) + node@.children.take(j as int),
            decreases node.children@.len() - j,
        {
            let ghost prior = queue@;
            queue.push_back(&node.children[j]);
            assert(node@.children[j as int] == node.children@[j as int]@);
            assert(queue@ == prior.push(&node.children@[j as int]));
            assert(queue_views(queue@) =~= queue_views(prior).push(node@.children[j as int]));
            assert(node@.children.take(j + 1) =~= node@.children.take(j as int).push(
                node@.children[j as int],
            ));
            j += 1;
        }
        assert(node@.children.take(j as int) =~= node@.children);
    }
}

} // verus!
