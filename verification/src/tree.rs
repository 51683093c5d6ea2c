//! The size-annotated tree that a scan produces.

use vstd::prelude::*;
use crate::location::name_of;
use crate::location::PathView;
use crate::location::ScanPath;

verus! {

/// The mathematical model of a tree node.
pub struct NodeView {
    pub name: Seq<char>,
    pub path: PathView,
    pub size: nat,
    pub children: Seq<NodeView>,
}

/// The sum of the sizes of `nodes`.
pub open spec fn total_size(nodes: Seq<NodeView>) -> nat
    decreases nodes.len(),
{
    if nodes.len() == 0 {
        0
    } else {
        total_size(nodes.drop_last()) + nodes.last().size
    }
}

/// The models of `nodes`, in the same order.
pub open spec fn views_of(nodes: Seq<DirNode>) -> Seq<NodeView> {
    Seq::new(nodes.len(), |i: int| nodes[i]@)
}

/// `node` has no children, or its size is the sum of its children's sizes.
pub open spec fn is_balanced(node: NodeView) -> bool {
    node.children.len() > 0 ==> node.size == total_size(node.children)
}

/// `node` and every node below it is balanced.
pub open spec fn all_balanced(node: NodeView) -> bool
    decreases node,
{
    &&& is_balanced(node)
    &&& forall|i: int| 0 <= i < node.children.len() ==> all_balanced(#[trigger] node.children[i])
}

/// `node` and every node below it is named by the final component of its
/// path.
pub open spec fn all_named_by_path(node: NodeView) -> bool
    decreases node,
{
    &&& node.name == name_of(node.path)
    &&& forall|i: int|
        0 <= i < node.children.len() ==> all_named_by_path(#[trigger] node.children[i])
}

/// No two of `nodes` have the same path.
pub open spec fn paths_distinct(nodes: Seq<NodeView>) -> bool {
    forall|i: int, j: int|
        0 <= i < nodes.len() && 0 <= j < nodes.len() && i != j ==> (#[trigger] nodes[i]).path != (
        #[trigger] nodes[j]).path
}

/// The total grows when a node is appended, by that node's size.
pub proof fn lemma_total_size_push(nodes: Seq<NodeView>, node: NodeView)
    ensures
        total_size(nodes.push(node)) == total_size(nodes) + node.size,
{
    assert(nodes.push(node).drop_last() =~= nodes);
}

/// The total of a concatenation is the sum of the two totals.
pub proof fn lemma_total_size_concat(front: Seq<NodeView>, back: Seq<NodeView>)
    ensures
        total_size(front + back) == total_size(front) + total_size(back),
    decreases back.len(),
{
    if back.len() == 0 {
        assert(front + back =~= front);
    } else {
        lemma_total_size_concat(front, back.drop_last());
        assert((front + back).drop_last() =~= front + back.drop_last());
    }
}

/// The total of a front part is at most the total of the whole.
pub proof fn lemma_total_size_take(nodes: Seq<NodeView>, n: int)
    requires
        0 <= n <= nodes.len(),
    ensures
        total_size(nodes.take(n)) <= total_size(nodes),
    decreases nodes.len(),
{
    if n < nodes.len() {
        lemma_total_size_take(nodes.drop_last(), n);
        assert(nodes.drop_last().take(n) =~= nodes.take(n));
    } else {
        assert(nodes.take(n) =~= nodes);
    }
}

/// One filesystem entry in the result tree: a file, or a directory with the
/// entries that were retained below it.
#[derive(Debug, PartialEq, Eq)]
pub struct DirNode {
    pub name: String,
    pub path: ScanPath,
    pub size: u64,
    pub children: Vec<DirNode>,
}

/// The model of `node`: its own fields and the models of its children.
pub open spec fn node_view(node: DirNode) -> NodeView
    decreases node,
{
    NodeView {
        name: node.name@,
        path: node.path@,
        size: node.size as nat,
        children: Seq::new(
            node.children@.len(),
            |i: int|
                if 0 <= i < node.children@.len() {
                    node_view(node.children@[i])
                } else {
                    arbitrary()
                },
        ),
    }
}

impl View for DirNode {
    type V = NodeView;

    open spec fn view(&self) -> NodeView {
        node_view(*self)
    }
}

impl Default for DirNode {
    /// A node without name, path, size or children.
    fn default() -> (node: Self)
        ensures
            node@ == (NodeView {
                name: Seq::empty(),
                path: Seq::empty(),
                size: 0,
                children: Seq::empty(),
            }),
    {
        let path = ScanPath::new(Vec::new());
        assert(path@ =~= Seq::<Seq<char>>::empty());
        DirNode::new(String::new(), path, 0)
    }
}

impl DirNode {
    /// The model of a node holds the models of its children, in order.
    pub proof fn lemma_view(self)
        ensures
            self@.name == self.name@,
            self@.path == self.path@,
            self@.size == self.size,
            self@.children == views_of(self.children@),
    {
        reveal_with_fuel(node_view, 2);
        assert(self@.children =~= views_of(self.children@));
    }

    /// A node without children.
    pub fn new(name: String, path: ScanPath, size: u64) -> (node: Self)
        ensures
            node@ == (NodeView {
                name: name@,
                path: path@,
                size: size as nat,
                children: Seq::empty(),
            }),
    {
        let node = DirNode { name, path, size, children: Vec::new() };
        proof {
            node.lemma_view();
            assert(views_of(node.children@) =~= Seq::empty());
        }
        node
    }
}

/// Adds up the sizes of `nodes`. The result is `None` exactly when the sum
/// does not fit in 64 bits.
pub fn sum_sizes(nodes: &Vec<DirNode>) -> (total: Option<u64>)
    ensures
        total == if total_size(views_of(nodes@)) <= u64::MAX {
            Some(total_size(views_of(nodes@)) as u64)
        } else {
            None
        },
{
    let ghost views = views_of(nodes@);
    let mut total: u64 = 0;
    let mut i: usize = 0;
    while i < nodes.len()
        invariant
            i <= nodes@.len(),
            views == views_of(nodes@),
            total == total_size(views.take(i as int)),
        decreases nodes@.len() - i,
    {
        proof {
            assert(views.take(i + 1).drop_last() =~= views.take(i as int));
            lemma_total_size_take(views, i + 1);
        }
        match total.checked_add(nodes[i].size) {
            Some(sum) => {
                total = sum;
            },
            None => {
                return None;
            },
        }
        i += 1;
    }
    proof {
        assert(views.take(i as int) =~= views);
    }
    Some(total)
}

} // verus!
