//! The tree printer: one text line per process, with line-drawing
//! prefixes that show the shape of the tree.

use vstd::prelude::*;
use vstd::string::*;
use crate::config::PrintConfig;
use crate::order::{
    display_order, identity_order, insert_position, lemma_display_order, node_pids,
    ordered_positions, pid_order_upto, pids_of,
};
use crate::process::{lemma_children_view, PidNode, Tree};
use crate::search::{forest_size, tree_size};
use crate::text::{decimal, push_decimal, string_from_chars};

verus! {

/// The cells in front of a child that has siblings below it.
pub open spec fn tee() -> Seq<char> {
    seq![' ', '\u{2560}', '\u{2550}', ' ']
}

/// The cells in front of the last child of a node.
pub open spec fn elbow() -> Seq<char> {
    seq![' ', '\u{255A}', '\u{2550}', ' ']
}

/// The cells that carry a vertical line past the descendants of a child
/// that has siblings below it.
pub open spec fn continuation() -> Seq<char> {
    seq![' ', '\u{2551}', ' ', ' ']
}

/// The cells below a last child: nothing is drawn there.
pub open spec fn blank() -> Seq<char> {
    seq![' ', ' ', ' ', ' ']
}

/// The line of one process: the prefix, the pid in parentheses where it is
/// shown, a space, the path or the name, a space, and the arguments where
/// they are shown.
pub open spec fn render_line(t: Tree, prefix: Seq<char>, cfg: PrintConfig) -> Seq<char> {
    prefix + (if cfg.show_pid {
        seq!['('] + decimal(t.pid as nat) + seq![')']
    } else {
        Seq::empty()
    }) + seq![' '] + (if cfg.show_path {
        t.info.path
    } else {
        t.info.name
    }) + seq![' '] + (if cfg.show_arg {
        t.info.arg
    } else {
        Seq::empty()
    })
}

/// What the prefix of a node with children becomes before a branch marker
/// is put behind it: its last four cells turn into a vertical line where
/// the node has siblings below it, and into blanks where it has none. A
/// prefix of less than four cells (that of a root) stays as it is.
pub open spec fn child_stem(prefix: Seq<char>, have_siblings: bool) -> Seq<char> {
    if prefix.len() >= 4 {
        prefix.take(prefix.len() - 4) + (if have_siblings {
            continuation()
        } else {
            blank()
        })
    } else {
        prefix
    }
}

/// The lines of a node and its descendants, in depth-first pre-order.
pub open spec fn render_node(t: Tree, prefix: Seq<char>, have_siblings: bool, cfg: PrintConfig) -> Seq<
    Seq<char>,
>
    decreases t, 1nat, 0nat,
{
    seq![render_line(t, prefix, cfg)] + (if t.children.len() == 0 {
        Seq::empty()
    } else {
        render_from(
            t,
            display_order(pids_of(t.children), cfg.sort),
            0,
            child_stem(prefix, have_siblings),
            cfg,
        )
    })
}

/// The lines of the children of `t` that stand at `order[i]`, `order[i + 1]`
/// and so on. The last one gets the elbow and is told that it has no
/// siblings below it; the others get the tee.
pub open spec fn render_from(
    t: Tree,
    order: Seq<int>,
    i: int,
    stem: Seq<char>,
    cfg: PrintConfig,
) -> Seq<Seq<char>>
    decreases t, 0nat, order.len() - i,
{
    if i < 0 || i >= order.len() {
        Seq::empty()
    } else {
        let last = i == order.len() - 1;
        let marker = if last {
            elbow()
        } else {
            tee()
        };
        (if 0 <= order[i] < t.children.len() {
            render_node(t.children[order[i]], stem + marker, !last, cfg)
        } else {
            Seq::empty()
        }) + render_from(t, order, i + 1, stem, cfg)
    }
}

/// The lines of a whole tree.
pub open spec fn render(t: Tree, cfg: PrintConfig) -> Seq<Seq<char>> {
    render_node(t, Seq::empty(), false, cfg)
}

/// Appends four cells.
fn push_cells(cells: &mut Vec<char>, a: char, b: char, c: char, d: char)
    ensures
        final(cells)@ == old(cells)@ + seq![a, b, c, d],
{
    cells.push(a);
    cells.push(b);
    cells.push(c);
    cells.push(d);
    assert(cells@ =~= old(cells)@ + seq![a, b, c, d]);
}

/// The stem for the children of a node with the given prefix.
fn stem_of(prefix: Vec<char>, have_siblings: bool) -> (stem: Vec<char>)
    ensures
        stem@ == child_stem(prefix@, have_siblings),
{
    let mut stem = prefix;
    let n = stem.len();
    if n >= 4 {
        stem.truncate(n - 4);
        if have_siblings {
            push_cells(&mut stem, ' ', '\u{2551}', ' ', ' ');
        } else {
            push_cells(&mut stem, ' ', ' ', ' ', ' ');
        }
    }
    stem
}

/// The stem with the branch marker of a child behind it.
fn branch_prefix(stem: &Vec<char>, last: bool) -> (prefix: Vec<char>)
    ensures
        prefix@ == stem@ + (if last {
            elbow()
        } else {
            tee()
        }),
{
    let mut prefix: Vec<char> = Vec::new();
    let mut i: usize = 0;
    while i < stem.len()
        invariant
            i <= stem.len(),
            prefix@ == stem@.take(i as int),
        decreases stem.len() - i,
    {
        prefix.push(stem[i]);
        assert(prefix@ =~= stem@.take(i + 1));
        i += 1;
    }
    assert(stem@.take(i as int) =~= stem@);
    if last {
        push_cells(&mut prefix, ' ', '\u{255A}', '\u{2550}', ' ');
    } else {
        push_cells(&mut prefix, ' ', '\u{2560}', '\u{2550}', ' ');
    }
    prefix
}

/// The line of one node.
fn line_text(node: &PidNode, prefix: &Vec<char>, cfg: &PrintConfig) -> (line: String)
    ensures
        line@ == render_line(node@, prefix@, *cfg),
{
    let mut head: Vec<char> = Vec::new();
    let mut i: usize = 0;
    while i < prefix.len()
        invariant
            i <= prefix.len(),
            head@ == prefix@.take(i as int),
        decreases prefix.len() - i,
    {
        head.push(prefix[i]);
        assert(head@ =~= prefix@.take(i + 1));
        i += 1;
    }
    assert(prefix@.take(i as int) =~= prefix@);
    if cfg.show_pid {
        head.push('(');
        push_decimal(&mut head, node.pid);
        head.push(')');
    }
    head.push(' ');
    let mut line = string_from_chars(&head);
    if cfg.show_path {
        line.append(node.process_info.path.as_str());
    } else {
        line.append(node.process_info.name.as_str());
    }
    proof {
        reveal_strlit(" ");
        assert(" "@ =~= seq![' ']);
    }
    line.append(" ");
    if cfg.show_arg {
        line.append(node.process_info.arg.as_str());
    }
    assert(line@ =~= render_line(node@, prefix@, *cfg));
    line
}

/// The pids of a node's children are the pids of their views.
proof fn lemma_child_pids(node: PidNode)
    ensures
        pids_of(node@.children) == node_pids(node.children@),
{
    lemma_children_view(node);
    assert(pids_of(node@.children) =~= node_pids(node.children@)) by {
        assert forall|i: int| 0 <= i < node.children@.len() implies pids_of(node@.children)[i]
            == node_pids(node.children@)[i] by {
            lemma_children_view(node.children@[i]);
        }
    }
}

/// Appends the lines of `root` and its descendants to `out`.
fn dfs(
    root: &PidNode,
    prefix: Vec<char>,
    have_siblings: bool,
    cfg: &PrintConfig,
    out: &mut Vec<String>,
)
    ensures
        final(out).deep_view() == old(out).deep_view() + render_node(
            root@,
            prefix@,
            have_siblings,
            *cfg,
        ),
    decreases root,
{
    let ghost start = out.deep_view();
    let ghost prefix_view = prefix@;
    let line = line_text(root, &prefix, cfg);
    out.push(line);
    assert(out.deep_view() =~= start + seq![render_line(root@, prefix_view, *cfg)]);
    proof {
        lemma_children_view(*root);
        lemma_child_pids(*root);
    }
    let n = root.children.len();
    if n == 0 {
        assert(out.deep_view() =~= start + render_node(root@, prefix_view, have_siblings, *cfg));
        return ;
    }
    let stem = stem_of(prefix, have_siblings);
    let order = ordered_positions(&root.children, cfg.sort);
    let ghost order_view = order@.map_values(|x: usize| x as int);
    let ghost total = start + render_node(root@, prefix_view, have_siblings, *cfg);
    assert(out.deep_view() + render_from(root@, order_view, 0, stem@, *cfg) =~= total);
    let mut i: usize = 0;
    while i < n
        invariant
            n == root.children@.len(),
            n == order@.len(),
            i <= n,
            order_view == order@.map_values(|x: usize| x as int),
            forall|k: int| 0 <= k < order@.len() ==> order@[k] < n,
            root@.children.len() == n,
            forall|k: int| 0 <= k < n ==> root@.children[k] == root.children@[k]@,
            out.deep_view() + render_from(root@, order_view, i as int, stem@, *cfg) == total,
        decreases n - i,
    {
        let last = i == n - 1;
        let child_prefix = branch_prefix(&stem, last);
        let k = order[i];
        let ghost before = out.deep_view();
        let ghost child_lines = render_node(root@.children[k as int], child_prefix@, !last, *cfg);
        assert(order_view[i as int] == k as int);
        dfs(&root.children[k], child_prefix, !last, cfg, out);
        assert(out.deep_view() + render_from(root@, order_view, i + 1, stem@, *cfg) =~= before
            + render_from(root@, order_view, i as int, stem@, *cfg)) by {
            assert(render_from(root@, order_view, i as int, stem@, *cfg) == child_lines + render_from(
                root@,
                order_view,
                i + 1,
                stem@,
                *cfg,
            ));
        }
        i += 1;
    }
    assert(out.deep_view() + Seq::<Seq<char>>::empty() =~= out.deep_view());
}

/// The number of nodes below the children that `order` lists.
spec fn listed_size(children: Seq<Tree>, order: Seq<int>) -> nat
    decreases order.len(),
{
    if order.len() == 0 {
        0
    } else {
        listed_size(children, order.drop_last()) + tree_size(children[order.last()])
    }
}

/// Inserting a position adds the size of its child.
proof fn lemma_listed_insert(children: Seq<Tree>, pids: Seq<u32>, order: Seq<int>, x: int)
    ensures
        listed_size(children, insert_position(pids, order, x)) == listed_size(children, order)
            + tree_size(children[x]),
    decreases order.len(),
{
    if order.len() == 0 {
        let one = seq![x];
        assert(one.drop_last() =~= Seq::<int>::empty());
        assert(listed_size(children, one.drop_last()) == 0);
    } else if pids[order.last()] <= pids[x] {
        assert(order.push(x).drop_last() =~= order);
    } else {
        lemma_listed_insert(children, pids, order.drop_last(), x);
        let inner = insert_position(pids, order.drop_last(), x);
        assert(inner.push(order.last()).drop_last() =~= inner);
    }
}

/// Listed as they stand, the first `n` children have the size of their
/// forest.
proof fn lemma_listed_identity(children: Seq<Tree>, n: nat)
    requires
        n <= children.len(),
    ensures
        listed_size(children, identity_order(n)) == forest_size(children.take(n as int)),
    decreases n,
{
    if n > 0 {
        let m = (n - 1) as nat;
        lemma_listed_identity(children, m);
        assert(identity_order(n).drop_last() =~= identity_order(m));
        assert(children.take(n as int).drop_last() =~= children.take(m as int));
    } else {
        assert(identity_order(0).len() == 0);
    }
}

/// Listed by ascending pid, the first `n` children have the size of
/// their forest.
proof fn lemma_listed_sorted(children: Seq<Tree>, pids: Seq<u32>, n: nat)
    requires
        n <= children.len(),
    ensures
        listed_size(children, pid_order_upto(pids, n)) == forest_size(children.take(n as int)),
    decreases n,
{
    if n > 0 {
        let m = (n - 1) as nat;
        lemma_listed_sorted(children, pids, m);
        lemma_listed_insert(children, pids, pid_order_upto(pids, m), n - 1);
        assert(children.take(n as int).drop_last() =~= children.take(m as int));
    }
}

/// The lines of the children from `order[i]` on are as many as the nodes
/// below them.
proof fn lemma_render_from_len(
    t: Tree,
    order: Seq<int>,
    i: int,
    stem: Seq<char>,
    cfg: PrintConfig,
)
    requires
        0 <= i <= order.len(),
        forall|k: int| 0 <= k < order.len() ==> 0 <= #[trigger] order[k] < t.children.len(),
    ensures
        render_from(t, order, i, stem, cfg).len() + listed_size(t.children, order.take(i))
            == listed_size(t.children, order),
    decreases t, 0nat, order.len() - i,
{
    if i < order.len() {
        let last = i == order.len() - 1;
        let marker = if last {
            elbow()
        } else {
            tee()
        };
        lemma_render_len(t.children[order[i]], stem + marker, !last, cfg);
        lemma_render_from_len(t, order, i + 1, stem, cfg);
        assert(order.take(i + 1).drop_last() =~= order.take(i));
    } else {
        assert(order.take(i) =~= order);
    }
}

/// One line stands for each process: the lines of a node and its
/// descendants are as many as the tree has nodes.
pub proof fn lemma_render_len(t: Tree, prefix: Seq<char>, have_siblings: bool, cfg: PrintConfig)
    ensures
        render_node(t, prefix, have_siblings, cfg).len() == tree_size(t),
    decreases t, 1nat, 0nat,
{
    if t.children.len() > 0 {
        let pids = pids_of(t.children);
        let order = display_order(pids, cfg.sort);
        let stem = child_stem(prefix, have_siblings);
        lemma_display_order(pids, cfg.sort);
        lemma_render_from_len(t, order, 0, stem, cfg);
        assert(order.take(0) =~= Seq::<int>::empty());
        assert(listed_size(t.children, order.take(0)) == 0);
        if cfg.sort {
            lemma_listed_sorted(t.children, pids, t.children.len());
        } else {
            lemma_listed_identity(t.children, t.children.len());
        }
        assert(t.children.take(t.children.len() as int) =~= t.children);
    }
}

/// Rendering is a function of the tree and the configuration alone: any
/// two results of `print` for one tree and one configuration hold the same
/// lines.
pub proof fn lemma_render_repeats(first: Vec<String>, second: Vec<String>, t: Tree, cfg: PrintConfig)
    requires
        first.deep_view() == render(t, cfg),
        second.deep_view() == render(t, cfg),
    ensures
        first.deep_view() == second.deep_view(),
        first@.len() == second@.len(),
        forall|i: int| 0 <= i < first@.len() ==> (#[trigger] first@[i])@ == second@[i]@,
{
    assert(first.deep_view().len() == first@.len());
    assert(second.deep_view().len() == second@.len());
    assert forall|i: int| 0 <= i < first@.len() implies (#[trigger] first@[i])@ == second@[i]@ by {
        assert(first.deep_view()[i] == first@[i]@);
        assert(second.deep_view()[i] == second@[i]@);
    }
}

/// Renders a tree: one line per process, in depth-first pre-order. The
/// tree is left as it is.
pub fn print(root: &PidNode, cfg: &PrintConfig) -> (lines: Vec<String>)
    ensures
        lines.deep_view() == render(root@, *cfg),
        lines@.len() == tree_size(root@),
{
    proof {
        lemma_render_len(root@, Seq::empty(), false, *cfg);
    }
    let mut lines: Vec<String> = Vec::new();
    assert(lines.deep_view() =~= Seq::<Seq<char>>::empty());
    dfs(root, Vec::new(), false, cfg, &mut lines);
    assert(Seq::<Seq<char>>::empty() + render(root@, *cfg) =~= render(root@, *cfg));
    lines
}

} // verus!
