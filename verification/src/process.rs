//! The data model: process records, process details and tree nodes, each
//! with the mathematical view that the contracts of this crate speak of.

use vstd::prelude::*;

verus! {

/// One entry of a process snapshot.
#[derive(Debug)]
pub struct ProcessRecord {
    pub pid: u32,
    pub parent_pid: u32,
    pub executable_name: String,
}

/// The view of a [`ProcessRecord`].
pub struct Record {
    pub pid: u32,
    pub parent_pid: u32,
    pub name: Seq<char>,
}

impl View for ProcessRecord {
    type V = Record;

    open spec fn view(&self) -> Record {
        Record { pid: self.pid, parent_pid: self.parent_pid, name: self.executable_name@ }
    }
}

impl DeepView for ProcessRecord {
    type V = Record;

    open spec fn deep_view(&self) -> Record {
        self@
    }
}

/// What is known about one process besides its id.
#[derive(Debug)]
pub struct ProcessInfo {
    pub name: String,
    pub path: String,
    pub arg: String,
}

impl Default for ProcessInfo {
    fn default() -> (info: ProcessInfo)
        ensures
            info@ == (Info { name: Seq::empty(), path: Seq::empty(), arg: Seq::empty() }),
    {
        ProcessInfo { name: String::new(), path: String::new(), arg: String::new() }
    }
}

/// The view of a [`ProcessInfo`].
pub struct Info {
    pub name: Seq<char>,
    pub path: Seq<char>,
    pub arg: Seq<char>,
}

impl View for ProcessInfo {
    type V = Info;

    open spec fn view(&self) -> Info {
        Info { name: self.name@, path: self.path@, arg: self.arg@ }
    }
}

/// A node of a process tree. It owns its children.
#[derive(Debug)]
pub struct PidNode {
    pub pid: u32,
    pub process_info: ProcessInfo,
    pub children: Vec<PidNode>,
}

/// The view of a [`PidNode`]: a finite tree of pids and details.
pub struct Tree {
    pub pid: u32,
    pub info: Info,
    pub children: Seq<Tree>,
}

/// The tree that a node and its descendants form.
pub open spec fn tree_of(node: PidNode) -> Tree
    decreases node,
{
    Tree {
        pid: node.pid,
        info: node.process_info@,
        children: Seq::new(
            node.children@.len(),
            |i: int|
                if 0 <= i < node.children@.len() {
                    tree_of(node.children@[i])
                } else {
                    arbitrary()
                },
        ),
    }
}

impl View for PidNode {
    type V = Tree;

    open spec fn view(&self) -> Tree {
        tree_of(*self)
    }
}

impl DeepView for PidNode {
    type V = Tree;

    open spec fn deep_view(&self) -> Tree {
        self@
    }
}

/// The view of a node holds the views of its children, in their order.
pub proof fn lemma_children_view(node: PidNode)
    ensures
        node@.pid == node.pid,
        node@.info == node.process_info@,
        node@.children.len() == node.children@.len(),
        forall|i: int|
            0 <= i < node.children@.len() ==> #[trigger] node@.children[i] == node.children@[i]@,
{
}

impl Default for PidNode {
    fn default() -> (node: PidNode)
        ensures
            node@ == (Tree {
                pid: 0,
                info: Info { name: Seq::empty(), path: Seq::empty(), arg: Seq::empty() },
                children: Seq::empty(),
            }),
    {
        PidNode::new(0, ProcessInfo::default())
    }
}

impl PidNode {
    /// A node without children.
    pub fn new(pid: u32, process_info: ProcessInfo) -> (node: PidNode)
        ensures
            node@ == (Tree { pid, info: process_info@, children: Seq::empty() }),
    {
        let node = PidNode { pid, process_info, children: Vec::new() };
        assert(node@.children =~= Seq::empty());
        node
    }
}

} // verus!
