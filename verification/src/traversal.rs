//! Walks over a tree, depth first and breadth first.
//!
//! A walk is a cursor over the elements of a tree. It never changes the tree, hands out
//! each node once, and ends. A new walk can be started at any time.

use crate::expression::ExprKind;
use crate::tree::{arena_ok, child_of, Node, NodeId, NodeView, Tree};
use std::collections::VecDeque;
use vstd::prelude::*;

verus! {

/// Index of a leaf in the arena of one tree.
#[derive(Clone, Copy, Debug, PartialEq, Eq, Structural)]
pub struct LeafId(pub usize);

/// A leaf of a tree: a variable or a constant.
#[derive(Clone, Copy, Debug)]
pub struct Leaf {
    kind: ExprKind,
    id: usize,
}

/// What a walk hands out: a leaf, which is a variable or a constant, or a node of any
/// other kind.
#[derive(Clone, Copy, Debug, PartialEq, Eq, Structural)]
pub enum TreeElement {
    Node(NodeId),
    Leaf(LeafId),
}

impl TreeElement {
    /// The index of the element in the arena.
    pub open spec fn index(self) -> NodeId {
        match self {
            TreeElement::Node(n) => n,
            TreeElement::Leaf(l) => NodeId(l.0),
        }
    }

    /// Converts into leaf, if it is a leaf
    pub fn into_leaf(self) -> (r: Option<LeafId>)
        ensures
            r == (match self {
                TreeElement::Leaf(l) => Some(l),
                TreeElement::Node(_) => None,
            }),
    {
        if let TreeElement::Leaf(l) = self {
            Some(l)
        } else {
            None
        }
    }

    /// Converts into node, if it is a node
    pub fn into_node(self) -> (r: Option<NodeId>)
        ensures
            r == (match self {
                TreeElement::Node(n) => Some(n),
                TreeElement::Leaf(_) => None,
            }),
    {
        if let TreeElement::Node(n) = self {
            Some(n)
        } else {
            None
        }
    }

    /// The index of the element in the arena.
    pub fn id(self) -> (r: NodeId)
        ensures
            r == self.index(),
    {
        match self {
            TreeElement::Node(n) => n,
            TreeElement::Leaf(l) => NodeId(l.0),
        }
    }
}

impl Leaf {
    /// The kind of the leaf.
    pub closed spec fn spec_kind(&self) -> ExprKind {
        self.kind
    }

    /// The index of the leaf.
    pub closed spec fn index(&self) -> LeafId {
        LeafId(self.id)
    }

    /// Type of the leaf
    pub fn kind(&self) -> (r: ExprKind)
        ensures
            r == self.spec_kind(),
    {
        self.kind
    }

    /// id of the leaf
    pub fn id(&self) -> (r: LeafId)
        ensures
            r == self.index(),
    {
        LeafId(self.id)
    }
}

/// A node of this kind is a leaf.
pub open spec fn is_leaf_kind(kind: ExprKind) -> bool {
    kind is Var || kind is Const
}

/// The element that stands for the node `id`.
pub open spec fn element_of(nodes: Seq<NodeView>, id: NodeId) -> TreeElement {
    if is_leaf_kind(nodes[id.0 as int].kind) {
        TreeElement::Leaf(LeafId(id.0))
    } else {
        TreeElement::Node(id)
    }
}

/// The elements that stand for the nodes of a sequence.
pub open spec fn elements_of(nodes: Seq<NodeView>, ids: Seq<NodeId>) -> Seq<TreeElement> {
    Seq::new(ids.len(), |i: int| element_of(nodes, ids[i]))
}

/// The indices of the elements of a sequence.
pub open spec fn indices(elements: Seq<TreeElement>) -> Seq<NodeId> {
    Seq::new(elements.len(), |i: int| elements[i].index())
}

/// Every id of the sequence is one of the arena.
pub open spec fn within(nodes: Seq<NodeView>, ids: Seq<NodeId>) -> bool {
    forall|j: int| 0 <= j < ids.len() ==> (#[trigger] ids[j]).0 < nodes.len()
}

/// The number of nodes of the subtree at `i`.
pub open spec fn size_at(nodes: Seq<NodeView>, i: int) -> nat
    decreases nodes.len() - i, nodes[i].children.len() + 1,
{
    if 0 <= i < nodes.len() {
        1 + sizes_of(nodes, i, nodes[i].children.len() as int)
    } else {
        0
    }
}

/// The number of nodes of the subtrees at the first `n` children of `i`.
pub open spec fn sizes_of(nodes: Seq<NodeView>, i: int, n: int) -> nat
    decreases nodes.len() - i, n,
{
    if n <= 0 || !(0 <= i < nodes.len()) || n > nodes[i].children.len() {
        0
    } else {
        sizes_of(nodes, i, n - 1) + (if i < child_of(nodes, i, n - 1) < nodes.len() {
            size_at(nodes, child_of(nodes, i, n - 1))
        } else {
            0
        })
    }
}

/// The number of nodes of the subtrees at the given nodes.
pub open spec fn weight(nodes: Seq<NodeView>, ids: Seq<NodeId>) -> nat
    decreases ids.len(),
{
    if ids.len() == 0 {
        0
    } else {
        weight(nodes, ids.drop_last()) + size_at(nodes, ids.last().0 as int)
    }
}

/// The weight of two runs of nodes is the sum of their weights.
proof fn lemma_weight_add(nodes: Seq<NodeView>, a: Seq<NodeId>, b: Seq<NodeId>)
    ensures
        weight(nodes, a + b) == weight(nodes, a) + weight(nodes, b),
    decreases b.len(),
{
    if b.len() == 0 {
        assert(a + b =~= a);
    } else {
        assert((a + b).drop_last() =~= a + b.drop_last());
        lemma_weight_add(nodes, a, b.drop_last());
    }
}

/// The weight of the first `n` children of a node is the size of their subtrees.
proof fn lemma_weight_of_children(nodes: Seq<NodeView>, i: int, n: int)
    requires
        arena_ok(nodes),
        0 <= i < nodes.len(),
        0 <= n <= nodes[i].children.len(),
    ensures
        weight(nodes, nodes[i].children.take(n)) == sizes_of(nodes, i, n),
    decreases n,
{
    if n > 0 {
        lemma_weight_of_children(nodes, i, n - 1);
        assert(nodes[i].children.take(n).drop_last() =~= nodes[i].children.take(n - 1));
        assert(i < child_of(nodes, i, n - 1) < nodes.len());
    }
}

/// Taking a node off the pending ones and putting its children there makes the weight
/// smaller by one.
proof fn lemma_step_weight(nodes: Seq<NodeView>, pending: Seq<NodeId>, at: int)
    requires
        arena_ok(nodes),
        within(nodes, pending),
        0 <= at < pending.len(),
    ensures
        weight(nodes, pending.remove(at) + nodes[pending[at].0 as int].children) + 1 == weight(
            nodes,
            pending,
        ),
        within(nodes, pending.remove(at) + nodes[pending[at].0 as int].children),
{
    let i = pending[at].0 as int;
    let children = nodes[i].children;
    let before = pending.take(at);
    let behind = pending.skip(at + 1);
    assert(pending =~= before + seq![pending[at]] + behind);
    assert(pending.remove(at) =~= before + behind);
    lemma_weight_add(nodes, before + seq![pending[at]], behind);
    lemma_weight_add(nodes, before, seq![pending[at]]);
    lemma_weight_add(nodes, before, behind);
    lemma_weight_add(nodes, before + behind, children);
    assert(seq![pending[at]].drop_last() =~= Seq::<NodeId>::empty());
    reveal_with_fuel(weight, 2);
    assert(weight(nodes, seq![pending[at]]) == size_at(nodes, i));
    lemma_weight_of_children(nodes, i, children.len() as int);
    assert(children.take(children.len() as int) =~= children);
    let rest = pending.remove(at) + children;
    assert forall|j: int| 0 <= j < rest.len() implies (#[trigger] rest[j]).0 < nodes.len() by {
        if j < pending.len() - 1 {
            if j < at {
                assert(rest[j] == pending[j]);
            } else {
                assert(rest[j] == pending[j + 1]);
            }
        } else {
            let k = j - (pending.len() - 1);
            assert(rest[j] == children[k]);
            assert(child_of(nodes, i, k) < nodes.len());
        }
    }
}

/// The order in which a walk hands out the nodes, given those that are pending. A walk
/// depth first takes the pending node that was added last, a walk breadth first the one
/// that was added first; the children of the node taken are added in their order.
pub open spec fn walk(nodes: Seq<NodeView>, pending: Seq<NodeId>, depth_first: bool) -> Seq<
    NodeId,
>
    decreases weight(nodes, pending),
    via walk_decreases
{
    if pending.len() == 0 || !arena_ok(nodes) || !within(nodes, pending) {
        Seq::empty()
    } else {
        let at = if depth_first {
            pending.len() - 1
        } else {
            0
        };
        seq![pending[at]] + walk(
            nodes,
            pending.remove(at) + nodes[pending[at].0 as int].children,
            depth_first,
        )
    }
}

#[via_fn]
proof fn walk_decreases(nodes: Seq<NodeView>, pending: Seq<NodeId>, depth_first: bool) {
    if !(pending.len() == 0 || !arena_ok(nodes) || !within(nodes, pending)) {
        let at = if depth_first {
            pending.len() - 1
        } else {
            0
        };
        lemma_step_weight(nodes, pending, at);
    }
}

/// A walk depth first over a tree.
pub struct TreeIterDfs<'a> {
    tree: &'a Tree,
    stack: Vec<TreeElement>,
}

/// A walk breadth first over a tree.
pub struct TreeIterBfs<'a> {
    tree: &'a Tree,
    queue: VecDeque<TreeElement>,
}

/// The elements of a worklist stand for nodes of the arena.
pub open spec fn worklist_ok(nodes: Seq<NodeView>, list: Seq<TreeElement>) -> bool {
    &&& within(nodes, indices(list))
    &&& list == elements_of(nodes, indices(list))
}

impl<'a> TreeIterDfs<'a> {
    /// The tree that is walked.
    pub closed spec fn tree(&self) -> Tree {
        *self.tree
    }

    /// The nodes that are pending, the next one last.
    pub closed spec fn pending(&self) -> Seq<NodeId> {
        indices(self.stack@)
    }

    /// The tree is well-formed and the pending elements are elements of it.
    pub closed spec fn wf(&self) -> bool {
        &&& self.tree.wf()
        &&& worklist_ok(self.tree.nodes(), self.stack@)
    }

    /// The nodes that the walk has yet to hand out, in order.
    pub open spec fn remaining(&self) -> Seq<NodeId> {
        walk(self.tree().nodes(), self.pending(), true)
    }

    /// Hands out the next element, or nothing at the end of the walk.
    pub fn next(&mut self) -> (r: Option<TreeElement>)
        requires
            old(self).wf(),
        ensures
            final(self).wf(),
            final(self).tree() == old(self).tree(),
            old(self).remaining().len() == 0 ==> r is None && final(self).remaining().len() == 0,
            old(self).remaining().len() > 0 ==> {
                &&& r == Some(element_of(old(self).tree().nodes(), old(self).remaining()[0]))
                &&& final(self).remaining() == old(self).remaining().drop_first()
            },
    {
        let ghost nodes = self.tree.nodes();
        let ghost before = self.pending();
        proof {
            self.tree.lemma_wf();
        }
        let top = match self.stack.pop() {
            None => {
                return None;
            },
            Some(top) => top,
        };
        let id = top.id();
        proof {
            assert(before[before.len() - 1] == id);
            assert(top == element_of(nodes, id));
            lemma_step_weight(nodes, before, before.len() - 1);
            assert(indices(self.stack@) =~= before.remove(before.len() - 1));
            lemma_worklist_part(nodes, old(self).stack@, self.stack@, 0);
        }
        let children = self.tree.node(id).children();
        let ghost kept = self.stack@;
        let mut k: usize = 0;
        while k < children.len()
            invariant
                k <= children@.len(),
                self.tree == old(self).tree,
                nodes == self.tree.nodes(),
                self.tree.wf(),
                id.0 < nodes.len(),
                children@ == nodes[id.0 as int].children,
                worklist_ok(nodes, kept),
                within(nodes, indices(kept) + children@),
                self.stack@ == kept + elements_of(nodes, children@.take(k as int)),
            decreases children@.len() - k,
        {
            proof {
                assert((indices(kept) + children@)[indices(kept).len() + k] == children@[k as int]);
            }
            let child = element(self.tree, children[k]);
            proof {
                assert(elements_of(nodes, children@.take(k as int)).push(child) =~= elements_of(
                    nodes,
                    children@.take(k + 1),
                ));
            }
            self.stack.push(child);
            k += 1;
        }
        proof {
            assert(children@.take(k as int) =~= children@);
            lemma_worklist_add(nodes, kept, children@);
            let rest = before.remove(before.len() - 1) + children@;
            assert(self.pending() == rest);
            assert(old(self).remaining() == seq![id] + walk(nodes, rest, true));
            assert(old(self).remaining().drop_first() =~= walk(nodes, rest, true));
        }
        Some(top)
    }
}

impl<'a> TreeIterBfs<'a> {
    /// The tree that is walked.
    pub closed spec fn tree(&self) -> Tree {
        *self.tree
    }

    /// The nodes that are pending, the next one first.
    pub closed spec fn pending(&self) -> Seq<NodeId> {
        indices(self.queue@)
    }

    /// The tree is well-formed and the pending elements are elements of it.
    pub closed spec fn wf(&self) -> bool {
        &&& self.tree.wf()
        &&& worklist_ok(self.tree.nodes(), self.queue@)
    }

    /// The nodes that the walk has yet to hand out, in order.
    pub open spec fn remaining(&self) -> Seq<NodeId> {
        walk(self.tree().nodes(), self.pending(), false)
    }

    /// Hands out the next element, or nothing at the end of the walk.
    pub fn next(&mut self) -> (r: Option<TreeElement>)
        requires
            old(self).wf(),
        ensures
            final(self).wf(),
            final(self).tree() == old(self).tree(),
            old(self).remaining().len() == 0 ==> r is None && final(self).remaining().len() == 0,
            old(self).remaining().len() > 0 ==> {
                &&& r == Some(element_of(old(self).tree().nodes(), old(self).remaining()[0]))
                &&& final(self).remaining() == old(self).remaining().drop_first()
            },
    {
        let ghost nodes = self.tree.nodes();
        let ghost before = self.pending();
        proof {
            self.tree.lemma_wf();
        }
        let first = match self.queue.pop_front() {
            None => {
                return None;
            },
            Some(first) => first,
        };
        let id = first.id();
        proof {
            assert(before[0] == id);
            assert(first == element_of(nodes, id));
            lemma_step_weight(nodes, before, 0);
            assert(indices(self.queue@) =~= before.remove(0));
            lemma_worklist_part(nodes, old(self).queue@, self.queue@, 1);
        }
        let children = self.tree.node(id).children();
        let ghost kept = self.queue@;
        let mut k: usize = 0;
        while k < children.len()
            invariant
                k <= children@.len(),
                self.tree == old(self).tree,
                nodes == self.tree.nodes(),
                self.tree.wf(),
                id.0 < nodes.len(),
                children@ == nodes[id.0 as int].children,
                worklist_ok(nodes, kept),
                within(nodes, indices(kept) + children@),
                self.queue@ == kept + elements_of(nodes, children@.take(k as int)),
            decreases children@.len() - k,
        {
            proof {
                assert((indices(kept) + children@)[indices(kept).len() + k] == children@[k as int]);
            }
            let child = element(self.tree, children[k]);
            proof {
                assert(elements_of(nodes, children@.take(k as int)).push(child) =~= elements_of(
                    nodes,
                    children@.take(k + 1),
                ));
            }
            self.queue.push_back(child);
            k += 1;
        }
        proof {
            assert(children@.take(k as int) =~= children@);
            lemma_worklist_add(nodes, kept, children@);
            let rest = before.remove(0) + children@;
            assert(self.pending() == rest);
            assert(old(self).remaining() == seq![id] + walk(nodes, rest, false));
            assert(old(self).remaining().drop_first() =~= walk(nodes, rest, false));
        }
        Some(first)
    }
}

/// A run of elements of a worklist is a worklist.
proof fn lemma_worklist_part(
    nodes: Seq<NodeView>,
    list: Seq<TreeElement>,
    part: Seq<TreeElement>,
    from: int,
)
    requires
        worklist_ok(nodes, list),
        0 <= from,
        from + part.len() <= list.len(),
        part == list.subrange(from, from + part.len()),
    ensures
        worklist_ok(nodes, part),
{
    assert forall|j: int| 0 <= j < part.len() implies (#[trigger] indices(part)[j]).0
        < nodes.len() && part[j] == elements_of(nodes, indices(part))[j] by {
        assert(indices(list)[from + j] == indices(part)[j]);
        assert(list[from + j] == elements_of(nodes, indices(list))[from + j]);
    }
    assert(part =~= elements_of(nodes, indices(part)));
}

/// A worklist with the elements of further nodes behind it.
proof fn lemma_worklist_add(nodes: Seq<NodeView>, list: Seq<TreeElement>, ids: Seq<NodeId>)
    requires
        worklist_ok(nodes, list),
        within(nodes, indices(list) + ids),
    ensures
        worklist_ok(nodes, list + elements_of(nodes, ids)),
        indices(list + elements_of(nodes, ids)) == indices(list) + ids,
{
    let all = list + elements_of(nodes, ids);
    assert(indices(all) =~= indices(list) + ids);
    assert forall|j: int| 0 <= j < all.len() implies all[j] == #[trigger] elements_of(
        nodes,
        indices(all),
    )[j] by {
        if j < list.len() {
            assert(list[j] == elements_of(nodes, indices(list))[j]);
        }
    }
    assert(all =~= elements_of(nodes, indices(all)));
}

/// The element that stands for the node `id` of the tree.
pub fn element(tree: &Tree, id: NodeId) -> (r: TreeElement)
    requires
        tree.wf(),
        id.0 < tree.spec_len(),
    ensures
        r == element_of(tree.nodes(), id),
        r.index() == id,
{
    match tree.node(id).kind() {
        ExprKind::Var(_) | ExprKind::Const(_) => TreeElement::Leaf(LeafId(id.0)),
        _ => TreeElement::Node(id),
    }
}

/// A walk depth first that starts at the node `id`.
pub fn dfs_from<'a>(tree: &'a Tree, id: NodeId) -> (r: TreeIterDfs<'a>)
    requires
        tree.wf(),
        id.0 < tree.spec_len(),
    ensures
        r.wf(),
        r.tree() == *tree,
        r.remaining() == walk(tree.nodes(), seq![id], true),
{
    let mut stack: Vec<TreeElement> = Vec::new();
    stack.push(element(tree, id));
    proof {
        assert(indices(stack@) =~= seq![id]);
        assert(stack@ =~= elements_of(tree.nodes(), indices(stack@)));
    }
    TreeIterDfs { tree, stack }
}

/// A walk breadth first that starts at the node `id`.
pub fn bfs_from<'a>(tree: &'a Tree, id: NodeId) -> (r: TreeIterBfs<'a>)
    requires
        tree.wf(),
        id.0 < tree.spec_len(),
    ensures
        r.wf(),
        r.tree() == *tree,
        r.remaining() == walk(tree.nodes(), seq![id], false),
{
    let mut queue: VecDeque<TreeElement> = VecDeque::new();
    queue.push_back(element(tree, id));
    proof {
        assert(indices(queue@) =~= seq![id]);
        assert(queue@ =~= elements_of(tree.nodes(), indices(queue@)));
    }
    TreeIterBfs { tree, queue }
}

impl Tree {
    /// A walk breadth first over a finished tree, from the root.
    pub fn iter_bfs(&self) -> (r: TreeIterBfs<'_>)
        requires
            self.wf(),
            self.finished(),
        ensures
            r.wf(),
            r.tree() == *self,
            r.remaining() == walk(self.nodes(), seq![NodeId(0)], false),
    {
        let root = self.root();
        bfs_from(self, NodeId(0))
    }

    /// A walk depth first over a finished tree, from the root.
    pub fn iter_dfs(&self) -> (r: TreeIterDfs<'_>)
        requires
            self.wf(),
            self.finished(),
        ensures
            r.wf(),
            r.tree() == *self,
            r.remaining() == walk(self.nodes(), seq![NodeId(0)], true),
    {
        let root = self.root();
        dfs_from(self, NodeId(0))
    }

    /// The leaf with the given id, which must be that of a leaf of this tree.
    pub fn leaf(&self, id: LeafId) -> (r: Leaf)
        requires
            self.wf(),
            id.0 < self.spec_len(),
            is_leaf_kind(self.nodes()[id.0 as int].kind),
        ensures
            r.spec_kind() == self.nodes()[id.0 as int].kind,
            r.index() == id,
    {
        Leaf { kind: self.node(NodeId(id.0)).kind(), id: id.0 }
    }

    /// The top-level nodes.
    pub fn sub_roots(&self) -> (r: Vec<&Node>)
        requires
            self.wf(),
        ensures
            r@.len() == self.nodes()[0].children.len(),
            forall|k: int|
                0 <= k < r@.len() ==> (#[trigger] r@[k])@ == self.nodes()[self.nodes()[0].children[k].0 as int]
                    && r@[k].index() == self.nodes()[0].children[k],
    {
        let root = self.root();
        let children = root.children();
        proof {
            self.lemma_term_at(NodeId(0));
        }
        let mut out: Vec<&Node> = Vec::new();
        let mut k: usize = 0;
        while k < children.len()
            invariant
                k <= children@.len(),
                self.wf(),
                children@ == self.nodes()[0].children,
                forall|w: int| 0 <= w < children@.len() ==> (#[trigger] children@[w]).0 < self.spec_len(),
                out@.len() == k,
                forall|w: int|
                    0 <= w < k ==> (#[trigger] out@[w])@ == self.nodes()[children@[w].0 as int]
                        && out@[w].index() == children@[w],
            decreases children@.len() - k,
        {
            let node = self.node(children[k]);
            out.push(node);
            k += 1;
        }
        out
    }

    /// The elements of the tree in the order of a walk depth first or breadth first from
    /// the root.
    pub fn elements(&self, depth_first: bool) -> (r: Vec<TreeElement>)
        requires
            self.wf(),
            self.finished(),
        ensures
            r@ == elements_of(self.nodes(), walk(self.nodes(), seq![NodeId(0)], depth_first)),
    {
        let mut out: Vec<TreeElement> = Vec::new();
        let ghost nodes = self.nodes();
        let ghost all = walk(nodes, seq![NodeId(0)], depth_first);
        if depth_first {
            let mut cursor = self.iter_dfs();
            proof {
                assert(out@ =~= elements_of(nodes, all.take(0)));
                assert(all.skip(0) =~= all);
            }
            loop
                invariant
                    cursor.wf(),
                    cursor.tree() == *self,
                    nodes == self.nodes(),
                    all == walk(nodes, seq![NodeId(0)], depth_first),
                    out@.len() <= all.len(),
                    out@ == elements_of(nodes, all.take(out@.len() as int)),
                    cursor.remaining() == all.skip(out@.len() as int),
                decreases all.len() - out@.len(),
            {
                let ghost done = out@.len() as int;
                match cursor.next() {
                    None => {
                        proof {
                            assert(all.take(done) =~= all);
                        }
                        return out;
                    },
                    Some(e) => {
                        proof {
                            assert(all.skip(done)[0] == all[done]);
                            assert(all.skip(done).drop_first() =~= all.skip(done + 1));
                            assert(elements_of(nodes, all.take(done)).push(e) =~= elements_of(
                                nodes,
                                all.take(done + 1),
                            ));
                        }
                        out.push(e);
                    },
                }
            }
        } else {
            let mut cursor = self.iter_bfs();
            proof {
                assert(out@ =~= elements_of(nodes, all.take(0)));
                assert(all.skip(0) =~= all);
            }
            loop
                invariant
                    cursor.wf(),
                    cursor.tree() == *self,
                    nodes == self.nodes(),
                    all == walk(nodes, seq![NodeId(0)], depth_first),
                    out@.len() <= all.len(),
                    out@ == elements_of(nodes, all.take(out@.len() as int)),
                    cursor.remaining() == all.skip(out@.len() as int),
                decreases all.len() - out@.len(),
            {
                let ghost done = out@.len() as int;
                match cursor.next() {
                    None => {
                        proof {
                            assert(all.take(done) =~= all);
                        }
                        return out;
                    },
                    Some(e) => {
                        proof {
                            assert(all.skip(done)[0] == all[done]);
                            assert(all.skip(done).drop_first() =~= all.skip(done + 1));
                            assert(elements_of(nodes, all.take(done)).push(e) =~= elements_of(
                                nodes,
                                all.take(done + 1),
                            ));
                        }
                        out.push(e);
                    },
                }
            }
        }
    }
}

/// The place of the node `id` among the children `siblings`.
pub open spec fn position(siblings: Seq<NodeId>, id: NodeId) -> int {
    choose|k: int| 0 <= k < siblings.len() && siblings[k] == id
}

/// The sibling `step` places behind the node `id`, if there is one; the root has none.
pub open spec fn sibling(nodes: Seq<NodeView>, id: NodeId, step: int) -> Option<NodeId> {
    let siblings = nodes[nodes[id.0 as int].parent.0 as int].children;
    let k = position(siblings, id) + step;
    if id.0 != 0 && 0 <= k < siblings.len() {
        Some(siblings[k])
    } else {
        None
    }
}

/// The ids among `children` that are leaves, in order.
pub open spec fn leaves_among(nodes: Seq<NodeView>, children: Seq<NodeId>, n: int) -> Seq<LeafId>
    decreases n,
{
    if n <= 0 {
        Seq::empty()
    } else {
        let c = children[n - 1];
        let before = leaves_among(nodes, children, n - 1);
        if is_leaf_kind(nodes[c.0 as int].kind) {
            before.push(LeafId(c.0))
        } else {
            before
        }
    }
}

/// The ids of a sequence of leaves.
pub open spec fn leaf_ids(leaves: Seq<Leaf>) -> Seq<LeafId> {
    Seq::new(leaves.len(), |i: int| leaves[i].index())
}

impl Node {
    /// The place of the node among the children of its parent.
    fn place(&self, tree: &Tree) -> (k: usize)
        requires
            tree.wf(),
            0 < self.index().0 < tree.spec_len(),
            self@ == tree.nodes()[self.index().0 as int],
        ensures
            k == position(tree.nodes()[self@.parent.0 as int].children, self.index()),
            k < tree.nodes()[self@.parent.0 as int].children.len(),
            self@.parent.0 < tree.spec_len(),
    {
        let id = self.id();
        let ghost nodes = tree.nodes();
        let ghost parent = self@.parent.0 as int;
        proof {
            tree.lemma_wf();
            assert(crate::tree::parent_of(nodes, id.0 as int) == parent);
            assert(0 <= parent < id.0);
            assert(nodes[parent].children.contains(id));
        }
        let siblings = tree.node(self.parent()).children();
        let ghost all = siblings@;
        let ghost at = position(all, id);
        let mut k: usize = 0;
        while k < siblings.len()
            invariant
                k <= siblings@.len(),
                all == siblings@,
                nodes == tree.nodes(),
                parent == self@.parent.0 as int,
                id == self.index(),
                all == nodes[parent].children,
                arena_ok(nodes),
                0 <= parent < nodes.len(),
                at == position(all, id),
                0 <= at < all.len(),
                all[at] == id,
                at >= k,
            decreases siblings@.len() - k,
        {
            if siblings[k].0 == id.0 {
                proof {
                    if at > k {
                        assert(child_of(nodes, parent, k as int) < child_of(nodes, parent, at));
                    }
                }
                return k;
            }
            k += 1;
        }
        k
    }

    /// Next sibling node
    pub fn next(&self, tree: &Tree) -> (r: Option<NodeId>)
        requires
            tree.wf(),
            self.index().0 < tree.spec_len(),
            self@ == tree.nodes()[self.index().0 as int],
        ensures
            r == sibling(tree.nodes(), self.index(), 1),
    {
        if self.id().0 == 0 {
            return None;
        }
        let k = self.place(tree);
        let siblings = tree.node(self.parent()).children();
        if k < siblings.len() - 1 {
            Some(siblings[k + 1])
        } else {
            None
        }
    }

    /// Previous sibling node
    pub fn prev(&self, tree: &Tree) -> (r: Option<NodeId>)
        requires
            tree.wf(),
            self.index().0 < tree.spec_len(),
            self@ == tree.nodes()[self.index().0 as int],
        ensures
            r == sibling(tree.nodes(), self.index(), -1),
    {
        if self.id().0 == 0 {
            return None;
        }
        let k = self.place(tree);
        let siblings = tree.node(self.parent()).children();
        if k > 0 {
            Some(siblings[k - 1])
        } else {
            None
        }
    }

    /// Children leaves
    pub fn leaves(&self, tree: &Tree) -> (r: Vec<Leaf>)
        requires
            tree.wf(),
            self.index().0 < tree.spec_len(),
            self@ == tree.nodes()[self.index().0 as int],
        ensures
            leaf_ids(r@) == leaves_among(tree.nodes(), self@.children, self@.children.len() as int),
    {
        let children = self.children();
        proof {
            tree.lemma_term_at(self.index());
        }
        let mut out: Vec<Leaf> = Vec::new();
        let mut k: usize = 0;
        proof {
            assert(leaf_ids(out@) =~= leaves_among(tree.nodes(), children@, 0));
        }
        while k < children.len()
            invariant
                k <= children@.len(),
                tree.wf(),
                forall|w: int| 0 <= w < children@.len() ==> (#[trigger] children@[w]).0 < tree.spec_len(),
                leaf_ids(out@) == leaves_among(tree.nodes(), children@, k as int),
            decreases children@.len() - k,
        {
            let child = children[k];
            match element(tree, child) {
                TreeElement::Leaf(id) => {
                    let leaf = tree.leaf(id);
                    proof {
                        assert(leaf_ids(out@.push(leaf)) =~= leaf_ids(out@).push(id));
                    }
                    out.push(leaf);
                },
                TreeElement::Node(_) => {},
            }
            k += 1;
        }
        out
    }

    /// The children of the node, each as a node or a leaf.
    pub fn children_with_leaves(&self, tree: &Tree) -> (r: Vec<TreeElement>)
        requires
            tree.wf(),
            self.index().0 < tree.spec_len(),
            self@ == tree.nodes()[self.index().0 as int],
        ensures
            r@ == elements_of(tree.nodes(), self@.children),
    {
        let children = self.children();
        proof {
            tree.lemma_term_at(self.index());
        }
        let mut out: Vec<TreeElement> = Vec::new();
        let mut k: usize = 0;
        proof {
            assert(out@ =~= elements_of(tree.nodes(), children@.take(0)));
        }
        while k < children.len()
            invariant
                k <= children@.len(),
                tree.wf(),
                forall|w: int| 0 <= w < children@.len() ==> (#[trigger] children@[w]).0 < tree.spec_len(),
                out@ == elements_of(tree.nodes(), children@.take(k as int)),
            decreases children@.len() - k,
        {
            let e = element(tree, children[k]);
            proof {
                assert(elements_of(tree.nodes(), children@.take(k as int)).push(e) =~= elements_of(
                    tree.nodes(),
                    children@.take(k + 1),
                ));
            }
            out.push(e);
            k += 1;
        }
        proof {
            assert(children@.take(k as int) =~= children@);
        }
        out
    }

    /// A walk breadth first over the subtree at the node.
    pub fn iter_bfs<'a>(&self, tree: &'a Tree) -> (r: TreeIterBfs<'a>)
        requires
            tree.wf(),
            self.index().0 < tree.spec_len(),
        ensures
            r.wf(),
            r.tree() == *tree,
            r.remaining() == walk(tree.nodes(), seq![self.index()], false),
    {
        bfs_from(tree, self.id())
    }

    /// A walk depth first over the subtree at the node.
    pub fn iter_dfs<'a>(&self, tree: &'a Tree) -> (r: TreeIterDfs<'a>)
        requires
            tree.wf(),
            self.index().0 < tree.spec_len(),
        ensures
            r.wf(),
            r.tree() == *tree,
            r.remaining() == walk(tree.nodes(), seq![self.index()], true),
    {
        dfs_from(tree, self.id())
    }
}

impl NodeId {
    /// The id of the root of every tree.
    pub fn root() -> (r: NodeId)
        ensures
            r == NodeId(0),
    {
        NodeId(0)
    }

    /// Get node from tree
    pub fn get(self, tree: &Tree) -> (r: &Node)
        requires
            tree.wf(),
            self.0 < tree.spec_len(),
        ensures
            r@ == tree.nodes()[self.0 as int],
            r.index() == self,
    {
        tree.node(self)
    }

    /// Get node from tree builder
    pub fn get_from_builder(self, tree: &Tree) -> (r: &Node)
        requires
            tree.wf(),
            self.0 < tree.spec_len(),
        ensures
            r@ == tree.nodes()[self.0 as int],
            r.index() == self,
    {
        tree.node(self)
    }
}

impl LeafId {
    /// Get leaf from tree
    pub fn get(self, tree: &Tree) -> (r: Leaf)
        requires
            tree.wf(),
            self.0 < tree.spec_len(),
            is_leaf_kind(tree.nodes()[self.0 as int].kind),
        ensures
            r.spec_kind() == tree.nodes()[self.0 as int].kind,
            r.index() == self,
    {
        tree.leaf(self)
    }

    /// Get leaf from tree builder
    pub fn get_from_builder(self, tree: &Tree) -> (r: Leaf)
        requires
            tree.wf(),
            self.0 < tree.spec_len(),
            is_leaf_kind(tree.nodes()[self.0 as int].kind),
        ensures
            r.spec_kind() == tree.nodes()[self.0 as int].kind,
            r.index() == self,
    {
        tree.leaf(self)
    }
}

impl Default for Tree {
    /// A tree that holds the root only.
    fn default() -> (r: Tree)
        ensures
            r.wf(),
            r.finished(),
            r.spec_len() == 1,
            r.terms() == Seq::<crate::term::Term>::empty(),
    {
        Tree::new()
    }
}

} // verus!
