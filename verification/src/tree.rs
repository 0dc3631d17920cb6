//! The arena that holds an expression tree, and the builder that fills it.
//!
//! Nodes live in one vector and name each other by index. A tree is built in a stack
//! discipline: a composite node is opened, its operands are pushed or spliced in, and the
//! node is closed again. A checkpoint marks a place among the operands of the open node:
//! a node opened there afterwards takes over the operands that came since. The model of a
//! tree under construction is a stack of frames, one for the root and one for every open
//! node, each holding the terms finished so far.

use crate::expression::ExprKind;
use crate::term::Term;
use vstd::prelude::*;

verus! {

/// Index of a node in the arena of one tree.
#[derive(Clone, Copy, Debug, PartialEq, Eq, Structural)]
pub struct NodeId(pub usize);

/// What the arena records of one node.
pub ghost struct NodeView {
    pub kind: ExprKind,
    pub parent: NodeId,
    pub children: Seq<NodeId>,
}

/// One level of a tree under construction: the kind of an open node and the terms of the
/// operands that it has received so far.
pub ghost struct Frame {
    pub kind: ExprKind,
    pub done: Seq<Term>,
}

/// The index of the `k`-th child of node `i`.
pub open spec fn child_of(nodes: Seq<NodeView>, i: int, k: int) -> int {
    nodes[i].children[k].0 as int
}

/// The index of the parent of node `j`.
pub open spec fn parent_of(nodes: Seq<NodeView>, j: int) -> int {
    nodes[j].parent.0 as int
}

/// The term rooted at node `i`.
pub open spec fn term_of(nodes: Seq<NodeView>, i: int) -> Term
    decreases nodes.len() - i,
{
    if 0 <= i < nodes.len() {
        Term {
            kind: nodes[i].kind,
            args: Seq::new(
                nodes[i].children.len(),
                |k: int|
                    if i < child_of(nodes, i, k) < nodes.len() {
                        term_of(nodes, child_of(nodes, i, k))
                    } else {
                        Term::leaf(ExprKind::Root)
                    },
            ),
        }
    } else {
        Term::leaf(ExprKind::Root)
    }
}

/// The terms of the first `n` children of node `i`.
pub open spec fn done_of(nodes: Seq<NodeView>, i: int, n: int) -> Seq<Term> {
    Seq::new(n as nat, |k: int| term_of(nodes, child_of(nodes, i, k)))
}

/// The arena is a rooted tree: node 0 is the root, every child lies behind its parent and
/// points back to it, child lists are strictly increasing, and every other node stands in
/// the child list of its parent.
pub open spec fn arena_ok(nodes: Seq<NodeView>) -> bool {
    &&& nodes.len() >= 1
    &&& nodes[0].kind == ExprKind::Root
    &&& nodes[0].parent == NodeId(0)
    &&& forall|i: int, k: int|
        0 <= i < nodes.len() && 0 <= k < nodes[i].children.len() ==> {
            let c = #[trigger] child_of(nodes, i, k);
            i < c < nodes.len() && nodes[c].parent.0 == i
        }
    &&& forall|i: int, k: int, m: int|
        0 <= i < nodes.len() && 0 <= k < m < nodes[i].children.len() ==> #[trigger] child_of(
            nodes,
            i,
            k,
        ) < #[trigger] child_of(nodes, i, m)
    &&& forall|j: int|
        1 <= j < nodes.len() ==> {
            let p = #[trigger] parent_of(nodes, j);
            0 <= p < j && nodes[p].children.contains(NodeId(j as usize))
        }
}

/// The node that frame `k` stands for: the root for frame 0, else the `k`-th open node.
pub open spec fn frame_node(open: Seq<NodeId>, k: int) -> int {
    if k == 0 {
        0
    } else {
        open[k - 1].0 as int
    }
}

/// Each open node is the last child of the open node below it, the first one of the root.
pub open spec fn stack_ok(nodes: Seq<NodeView>, open: Seq<NodeId>) -> bool {
    forall|k: int|
        0 <= k < open.len() ==> {
            let c = open[k].0 as int;
            let p = #[trigger] frame_node(open, k);
            &&& 1 <= c < nodes.len()
            &&& nodes[c].parent.0 == p
            &&& nodes[p].children.len() > 0
            &&& nodes[p].children.last() == open[k]
        }
}

/// The frames of an arena with the given open nodes.
pub open spec fn frames_of(nodes: Seq<NodeView>, open: Seq<NodeId>) -> Seq<Frame> {
    Seq::new(
        open.len() + 1,
        |k: int|
            {
                let i = frame_node(open, k);
                Frame {
                    kind: nodes[i].kind,
                    done: done_of(
                        nodes,
                        i,
                        nodes[i].children.len() - (if k < open.len() {
                            1int
                        } else {
                            0int
                        }),
                    ),
                }
            },
    )
}

/// Node `j` is the root or one of the open nodes.
pub open spec fn is_open(open: Seq<NodeId>, j: int) -> bool {
    j == 0 || exists|k: int| 0 <= k < open.len() && (#[trigger] open[k]).0 == j
}

/// In a well-formed arena the term of a node is its kind over the terms of its children.
pub proof fn lemma_term_unfold(nodes: Seq<NodeView>, i: int)
    requires
        arena_ok(nodes),
        0 <= i < nodes.len(),
    ensures
        term_of(nodes, i) == (Term {
            kind: nodes[i].kind,
            args: done_of(nodes, i, nodes[i].children.len() as int),
        }),
{
    let n = nodes[i].children.len() as int;
    assert forall|k: int| 0 <= k < n implies term_of(nodes, i).args[k] == done_of(
        nodes,
        i,
        n,
    )[k] by {
        let c = child_of(nodes, i, k);
        assert(i < c < nodes.len());
    }
    assert(term_of(nodes, i).args =~= done_of(nodes, i, n));
}

/// A child of a node that is not open is not open either.
proof fn lemma_closed_below(nodes: Seq<NodeView>, open: Seq<NodeId>, i: int, k: int)
    requires
        arena_ok(nodes),
        stack_ok(nodes, open),
        0 <= i < nodes.len(),
        0 <= k < nodes[i].children.len(),
        !is_open(open, i),
    ensures
        !is_open(open, child_of(nodes, i, k)),
{
    let c = child_of(nodes, i, k);
    assert(i < c < nodes.len() && nodes[c].parent.0 == i);
    if is_open(open, c) {
        let m = choose|m: int| 0 <= m < open.len() && (#[trigger] open[m]).0 == c;
        assert(nodes[c].parent.0 == frame_node(open, m));
        if m > 0 {
            assert(open[m - 1].0 == i);
        }
        assert(false);
    }
}

/// The term of a node that is not open does not change when nodes are appended and only
/// the records of open nodes are altered.
proof fn lemma_term_stable(a: Seq<NodeView>, b: Seq<NodeView>, open: Seq<NodeId>, i: int)
    requires
        arena_ok(a),
        stack_ok(a, open),
        a.len() <= b.len(),
        forall|j: int|
            0 <= j < a.len() && !is_open(open, j) ==> (#[trigger] b[j]).kind == a[j].kind
                && b[j].children == a[j].children,
        0 <= i < a.len(),
        !is_open(open, i),
    ensures
        term_of(b, i) == term_of(a, i),
    decreases a.len() - i,
{
    let n = a[i].children.len() as int;
    assert(b[i].kind == a[i].kind && b[i].children == a[i].children);
    assert forall|k: int| 0 <= k < n implies term_of(b, i).args[k] == term_of(a, i).args[k] by {
        let c = child_of(a, i, k);
        assert(child_of(b, i, k) == c);
        assert(i < c < a.len());
        lemma_closed_below(a, open, i, k);
        lemma_term_stable(a, b, open, c);
    }
    assert(term_of(b, i).args =~= term_of(a, i).args);
}

/// The finished operands of an open node keep their terms under the changes that
/// `lemma_term_stable` admits.
proof fn lemma_done_stable(
    a: Seq<NodeView>,
    b: Seq<NodeView>,
    open: Seq<NodeId>,
    i: int,
    n: int,
)
    requires
        arena_ok(a),
        stack_ok(a, open),
        a.len() <= b.len(),
        forall|j: int|
            0 <= j < a.len() && !is_open(open, j) ==> (#[trigger] b[j]).kind == a[j].kind
                && b[j].children == a[j].children,
        0 <= i < a.len(),
        0 <= n <= a[i].children.len(),
        n <= b[i].children.len(),
        forall|k: int| 0 <= k < n ==> b[i].children[k] == a[i].children[k],
        forall|k: int| 0 <= k < n ==> !is_open(open, #[trigger] child_of(a, i, k)),
    ensures
        done_of(b, i, n) == done_of(a, i, n),
{
    assert forall|k: int| 0 <= k < n implies done_of(b, i, n)[k] == done_of(a, i, n)[k] by {
        let c = child_of(a, i, k);
        assert(child_of(b, i, k) == c);
        assert(i < c < a.len());
        lemma_term_stable(a, b, open, c);
    }
    assert(done_of(b, i, n) =~= done_of(a, i, n));
}

/// Among the children of the node of frame `k`, only the last can be open, and it is open
/// exactly when a frame stands above frame `k`.
proof fn lemma_frame_children(nodes: Seq<NodeView>, open: Seq<NodeId>, k: int, m: int)
    requires
        arena_ok(nodes),
        stack_ok(nodes, open),
        0 <= k <= open.len(),
        0 <= m < nodes[frame_node(open, k)].children.len(),
        k < open.len() ==> m < nodes[frame_node(open, k)].children.len() - 1,
    ensures
        !is_open(open, child_of(nodes, frame_node(open, k), m)),
{
    let i = frame_node(open, k);
    lemma_frame_node_range(nodes, open, k);
    let c = child_of(nodes, i, m);
    assert(i < c < nodes.len() && nodes[c].parent.0 == i);
    if is_open(open, c) {
        let j = choose|j: int| 0 <= j < open.len() && (#[trigger] open[j]).0 == c;
        assert(frame_node(open, j) == i);
        if j < k {
            lemma_frame_nodes_increase(nodes, open, j, k);
        }
        if k < j {
            lemma_frame_nodes_increase(nodes, open, k, j);
        }
        assert(j == k);
        let last = nodes[i].children.len() - 1;
        assert(child_of(nodes, i, last) == c);
        assert(child_of(nodes, i, m) < child_of(nodes, i, last));
        assert(false);
    }
}

/// The node of every frame lies in the arena.
proof fn lemma_frame_node_range(nodes: Seq<NodeView>, open: Seq<NodeId>, k: int)
    requires
        arena_ok(nodes),
        stack_ok(nodes, open),
        0 <= k <= open.len(),
    ensures
        0 <= frame_node(open, k) < nodes.len(),
        k > 0 ==> frame_node(open, k) >= 1,
{
    if k > 0 {
        let below = frame_node(open, k - 1);
        assert(1 <= open[k - 1].0 < nodes.len());
    }
}

/// The nodes of the frames grow with the frames.
proof fn lemma_frame_nodes_increase(nodes: Seq<NodeView>, open: Seq<NodeId>, j: int, k: int)
    requires
        arena_ok(nodes),
        stack_ok(nodes, open),
        0 <= j <= open.len(),
        0 <= k <= open.len(),
        j < k,
    ensures
        frame_node(open, j) < frame_node(open, k),
    decreases k - j,
{
    lemma_frame_node_range(nodes, open, j);
    lemma_frame_node_range(nodes, open, k);
    let c = open[k - 1].0 as int;
    let p = frame_node(open, k - 1);
    assert(nodes[c].parent.0 == p);
    assert(0 <= parent_of(nodes, c) < c);
    if j < k - 1 {
        lemma_frame_nodes_increase(nodes, open, j, k - 1);
    }
}

/// The arena after a node of kind `kind` has been opened under the innermost open node.
pub open spec fn opened(nodes: Seq<NodeView>, open: Seq<NodeId>, kind: ExprKind) -> Seq<NodeView> {
    let p = frame_node(open, open.len() as int);
    nodes.update(
        p,
        NodeView { children: nodes[p].children.push(NodeId(nodes.len() as usize)), ..nodes[p] },
    ).push(NodeView { kind, parent: NodeId(p as usize), children: Seq::empty() })
}

/// Opening a node keeps the arena well-formed and adds an empty frame.
proof fn lemma_opened(nodes: Seq<NodeView>, open: Seq<NodeId>, kind: ExprKind)
    requires
        arena_ok(nodes),
        stack_ok(nodes, open),
        nodes.len() < usize::MAX,
    ensures
        arena_ok(opened(nodes, open, kind)),
        stack_ok(opened(nodes, open, kind), open.push(NodeId(nodes.len() as usize))),
        frames_of(opened(nodes, open, kind), open.push(NodeId(nodes.len() as usize)))
            == frames_of(nodes, open).push(Frame { kind, done: Seq::empty() }),
{
    let a = nodes;
    let b = opened(nodes, open, kind);
    let top = open.len() as int;
    let p = frame_node(open, top);
    let n = a.len() as int;
    let open_b = open.push(NodeId(n as usize));
    lemma_frame_node_range(a, open, top);
    assert(b.len() == n + 1);
    assert(b[n].children.len() == 0);
    assert forall|i: int, k: int| 0 <= i < b.len() && 0 <= k < b[i].children.len() implies ({
        let c = #[trigger] child_of(b, i, k);
        i < c < b.len() && b[c].parent.0 == i
    }) by {
        if i == p && k == a[p].children.len() {
            assert(child_of(b, i, k) == n);
        } else {
            assert(child_of(b, i, k) == child_of(a, i, k));
        }
    }
    assert forall|i: int, k: int, m: int|
        0 <= i < b.len() && 0 <= k < m < b[i].children.len() implies #[trigger] child_of(b, i, k)
        < #[trigger] child_of(b, i, m) by {
        if i == p && m == a[p].children.len() {
            assert(child_of(b, i, k) == child_of(a, i, k));
            assert(child_of(b, i, m) == n);
        } else {
            assert(child_of(b, i, k) == child_of(a, i, k));
            assert(child_of(b, i, m) == child_of(a, i, m));
        }
    }
    assert forall|j: int| 1 <= j < b.len() implies ({
        let q = #[trigger] parent_of(b, j);
        0 <= q < j && b[q].children.contains(NodeId(j as usize))
    }) by {
        if j == n {
            assert(b[p].children[a[p].children.len() as int] == NodeId(j as usize));
        } else {
            let q = parent_of(a, j);
            assert(parent_of(b, j) == q);
            let w = choose|w: int|
                0 <= w < a[q].children.len() && a[q].children[w] == NodeId(j as usize);
            assert(b[q].children[w] == NodeId(j as usize));
        }
    }
    assert(arena_ok(b));
    assert forall|k: int| 0 <= k < open_b.len() implies ({
        let c = open_b[k].0 as int;
        let q = #[trigger] frame_node(open_b, k);
        &&& 1 <= c < b.len()
        &&& b[c].parent.0 == q
        &&& b[q].children.len() > 0
        &&& b[q].children.last() == open_b[k]
    }) by {
        if k < top {
            assert(open_b[k] == open[k]);
            assert(frame_node(open_b, k) == frame_node(open, k));
            lemma_frame_nodes_increase(a, open, k, top);
            lemma_frame_node_range(a, open, k);
        } else {
            assert(frame_node(open_b, k) == p);
        }
    }
    assert forall|j: int| 0 <= j < a.len() && !is_open(open, j) implies (#[trigger] b[j]).kind
        == a[j].kind && b[j].children == a[j].children by {
        if j == p && p != 0 {
            assert(open[top - 1].0 == j);
        }
    }
    let fa = frames_of(a, open);
    let fb = frames_of(b, open_b);
    assert forall|k: int| 0 <= k <= top implies fb[k] == fa[k] by {
        let i = frame_node(open, k);
        assert(frame_node(open_b, k) == i);
        lemma_frame_node_range(a, open, k);
        let cnt = a[i].children.len() - (if k < top {
            1int
        } else {
            0int
        });
        if k < top {
            lemma_frame_nodes_increase(a, open, k, top);
            assert(open[k].0 >= 1);
        }
        assert forall|m: int| 0 <= m < cnt implies !is_open(open, #[trigger] child_of(a, i, m)) by {
            lemma_frame_children(a, open, k, m);
        }
        lemma_done_stable(a, b, open, i, cnt);
    }
    assert(done_of(b, n, 0) =~= Seq::<Term>::empty());
    assert(frame_node(open_b, top + 1) == n);
    assert(fb =~= fa.push(Frame { kind, done: Seq::empty() }));
}

/// Closing the innermost open node hands its term to the frame below.
proof fn lemma_closed(nodes: Seq<NodeView>, open: Seq<NodeId>)
    requires
        arena_ok(nodes),
        stack_ok(nodes, open),
        open.len() > 0,
    ensures
        stack_ok(nodes, open.drop_last()),
        frames_of(nodes, open.drop_last()) == closed_frames(frames_of(nodes, open)),
        frames_of(nodes, open).last().kind == nodes[open.last().0 as int].kind,
{
    let top = open.len() as int;
    let rest = open.drop_last();
    let c = open[top - 1].0 as int;
    let p = frame_node(open, top - 1);
    assert forall|k: int| 0 <= k < rest.len() implies ({
        let d = rest[k].0 as int;
        let q = #[trigger] frame_node(rest, k);
        &&& 1 <= d < nodes.len()
        &&& nodes[d].parent.0 == q
        &&& nodes[q].children.len() > 0
        &&& nodes[q].children.last() == rest[k]
    }) by {
        assert(rest[k] == open[k]);
        assert(frame_node(rest, k) == frame_node(open, k));
    }
    let fa = frames_of(nodes, open);
    let fb = frames_of(nodes, rest);
    let want = closed_frames(fa);
    assert(frame_node(open, top) == c);
    lemma_frame_node_range(nodes, open, top - 1);
    lemma_term_unfold(nodes, c);
    assert(fb.len() == want.len());
    assert forall|k: int| 0 <= k < fb.len() implies fb[k] == want[k] by {
        assert(frame_node(rest, k) == frame_node(open, k));
        if k == top - 1 {
            let cnt = nodes[p].children.len() as int;
            assert(child_of(nodes, p, cnt - 1) == c);
            assert(done_of(nodes, p, cnt) =~= done_of(nodes, p, cnt - 1).push(term_of(nodes, c)));
        }
    }
    assert(fb =~= want);
}

/// The frames after the innermost one has been closed: it leaves the stack, and its term
/// joins the operands of the frame below.
pub open spec fn closed_frames(frames: Seq<Frame>) -> Seq<Frame> {
    let top = frames.last();
    let rest = frames.drop_last();
    rest.update(
        rest.len() - 1,
        Frame {
            kind: rest.last().kind,
            done: rest.last().done.push(Term { kind: top.kind, args: top.done }),
        },
    )
}

/// The ids of a child list, each moved up by `off`.
pub open spec fn shifted(ids: Seq<NodeId>, off: int) -> Seq<NodeId> {
    Seq::new(ids.len(), |k: int| NodeId((ids[k].0 + off) as usize))
}

/// The arena after the finished arena `other` has been spliced in under the innermost open
/// node: the nodes of `other` but its root follow the nodes at hand, every id of `other`
/// raised by the number of nodes at hand besides the root, and the top-level nodes of
/// `other` become further children of the innermost open node.
pub open spec fn spliced(nodes: Seq<NodeView>, open: Seq<NodeId>, other: Seq<NodeView>) -> Seq<
    NodeView,
> {
    let p = frame_node(open, open.len() as int);
    let off = nodes.len() - 1;
    Seq::new(
        (nodes.len() + other.len() - 1) as nat,
        |i: int|
            if i < nodes.len() {
                if i == p {
                    NodeView {
                        children: nodes[p].children + shifted(other[0].children, off),
                        ..nodes[p]
                    }
                } else {
                    nodes[i]
                }
            } else {
                let j = i - off;
                NodeView {
                    kind: other[j].kind,
                    parent: if other[j].parent.0 == 0 {
                        NodeId(p as usize)
                    } else {
                        NodeId((other[j].parent.0 + off) as usize)
                    },
                    children: shifted(other[j].children, off),
                }
            },
    )
}

/// A node that was spliced in has the term that it had in the arena it came from.
proof fn lemma_spliced_term(
    nodes: Seq<NodeView>,
    open: Seq<NodeId>,
    other: Seq<NodeView>,
    j: int,
)
    requires
        arena_ok(nodes),
        stack_ok(nodes, open),
        arena_ok(other),
        nodes.len() + other.len() - 1 <= usize::MAX,
        1 <= j < other.len(),
    ensures
        term_of(spliced(nodes, open, other), j + nodes.len() - 1) == term_of(other, j),
    decreases other.len() - j,
{
    let b = spliced(nodes, open, other);
    let off = nodes.len() - 1;
    let i = j + off;
    assert(b[i].kind == other[j].kind);
    assert(b[i].children == shifted(other[j].children, off));
    let n = other[j].children.len() as int;
    assert forall|k: int| 0 <= k < n implies term_of(b, i).args[k] == term_of(other, j).args[k] by {
        let c = child_of(other, j, k);
        assert(j < c < other.len());
        assert(child_of(b, i, k) == c + off);
        lemma_spliced_term(nodes, open, other, c);
    }
    assert(term_of(b, i).args =~= term_of(other, j).args);
}

/// Splicing keeps the arena a rooted tree.
proof fn lemma_spliced_arena(nodes: Seq<NodeView>, open: Seq<NodeId>, other: Seq<NodeView>)
    requires
        arena_ok(nodes),
        stack_ok(nodes, open),
        arena_ok(other),
        nodes.len() + other.len() - 1 <= usize::MAX,
    ensures
        arena_ok(spliced(nodes, open, other)),
{
    let a = nodes;
    let t = other;
    let b = spliced(nodes, open, other);
    let top = open.len() as int;
    let p = frame_node(open, top);
    let off = a.len() - 1;
    let old_n = a[p].children.len() as int;
    lemma_frame_node_range(a, open, top);
    assert forall|i: int, k: int| 0 <= i < b.len() && 0 <= k < b[i].children.len() implies ({
        let c = #[trigger] child_of(b, i, k);
        i < c < b.len() && b[c].parent.0 == i
    }) by {
        if i < a.len() {
            if i == p && k >= old_n {
                let ct = child_of(t, 0, k - old_n);
                assert(0 < ct < t.len() && t[ct].parent.0 == 0);
                assert(child_of(b, i, k) == ct + off);
            } else {
                assert(child_of(b, i, k) == child_of(a, i, k));
            }
        } else {
            let j = i - off;
            let ct = child_of(t, j, k);
            assert(j < ct < t.len() && t[ct].parent.0 == j);
            assert(child_of(b, i, k) == ct + off);
        }
    }
    assert forall|i: int, k: int, w: int|
        0 <= i < b.len() && 0 <= k < w < b[i].children.len() implies #[trigger] child_of(b, i, k)
        < #[trigger] child_of(b, i, w) by {
        if i < a.len() {
            if i == p && w >= old_n {
                let cw = child_of(t, 0, w - old_n);
                assert(0 < cw < t.len());
                assert(child_of(b, i, w) == cw + off);
                if k >= old_n {
                    let ck = child_of(t, 0, k - old_n);
                    assert(ck < cw);
                    assert(child_of(b, i, k) == ck + off);
                } else {
                    assert(child_of(b, i, k) == child_of(a, i, k));
                }
            } else {
                assert(child_of(b, i, k) == child_of(a, i, k));
                assert(child_of(b, i, w) == child_of(a, i, w));
            }
        } else {
            let j = i - off;
            assert(child_of(b, i, k) == child_of(t, j, k) + off);
            assert(child_of(b, i, w) == child_of(t, j, w) + off);
        }
    }
    assert forall|j: int| 1 <= j < b.len() implies ({
        let q = #[trigger] parent_of(b, j);
        0 <= q < j && b[q].children.contains(NodeId(j as usize))
    }) by {
        if j < a.len() {
            let q = parent_of(a, j);
            assert(parent_of(b, j) == q);
            let w = choose|w: int|
                0 <= w < a[q].children.len() && a[q].children[w] == NodeId(j as usize);
            assert(b[q].children[w] == NodeId(j as usize));
        } else {
            let jt = j - off;
            let qt = parent_of(t, jt);
            let w = choose|w: int|
                0 <= w < t[qt].children.len() && t[qt].children[w] == NodeId(jt as usize);
            if qt == 0 {
                assert(parent_of(b, j) == p);
                assert(b[p].children[old_n + w] == NodeId(j as usize));
            } else {
                assert(parent_of(b, j) == qt + off);
                assert(b[qt + off].children[w] == NodeId(j as usize));
            }
        }
    }
}

/// Splicing leaves the open nodes in place and touches no record of a node that is not
/// open.
proof fn lemma_spliced_stack(nodes: Seq<NodeView>, open: Seq<NodeId>, other: Seq<NodeView>)
    requires
        arena_ok(nodes),
        stack_ok(nodes, open),
        arena_ok(other),
        nodes.len() + other.len() - 1 <= usize::MAX,
    ensures
        stack_ok(spliced(nodes, open, other), open),
        forall|j: int|
            0 <= j < nodes.len() && !is_open(open, j) ==> (#[trigger] spliced(
                nodes,
                open,
                other,
            )[j]).kind == nodes[j].kind && spliced(nodes, open, other)[j].children
                == nodes[j].children,
{
    let a = nodes;
    let b = spliced(nodes, open, other);
    let top = open.len() as int;
    let p = frame_node(open, top);
    lemma_frame_node_range(a, open, top);
    assert forall|k: int| 0 <= k < open.len() implies ({
        let c = open[k].0 as int;
        let q = #[trigger] frame_node(open, k);
        &&& 1 <= c < b.len()
        &&& b[c].parent.0 == q
        &&& b[q].children.len() > 0
        &&& b[q].children.last() == open[k]
    }) by {
        lemma_frame_nodes_increase(a, open, k, top);
        lemma_frame_node_range(a, open, k);
    }
    assert forall|j: int| 0 <= j < a.len() && !is_open(open, j) implies (#[trigger] b[j]).kind
        == a[j].kind && b[j].children == a[j].children by {
        if j == p && p != 0 {
            assert(open[top - 1].0 == j);
        }
    }
}

/// Frames are kept by a change of the arena that appends nodes, leaves every node that is
/// not open as it was, leaves the frames below the innermost their children, and gives
/// the innermost open node further children with the terms `extra`.
proof fn lemma_frames_extended(
    a: Seq<NodeView>,
    b: Seq<NodeView>,
    open: Seq<NodeId>,
    extra: Seq<Term>,
)
    requires
        arena_ok(a),
        stack_ok(a, open),
        a.len() <= b.len(),
        forall|j: int|
            0 <= j < a.len() && j != frame_node(open, open.len() as int) ==> #[trigger] b[j]
                == a[j],
        ({
            let p = frame_node(open, open.len() as int);
            let old_n = a[p].children.len() as int;
            &&& b[p].kind == a[p].kind
            &&& b[p].children.len() == old_n + extra.len()
            &&& forall|w: int| 0 <= w < old_n ==> b[p].children[w] == a[p].children[w]
            &&& forall|w: int|
                old_n <= w < old_n + extra.len() ==> term_of(b, #[trigger] child_of(b, p, w))
                    == extra[w - old_n]
        }),
    ensures
        frames_of(b, open) == frames_of(a, open).update(
            open.len() as int,
            Frame {
                kind: frames_of(a, open).last().kind,
                done: frames_of(a, open).last().done + extra,
            },
        ),
{
    let top = open.len() as int;
    let p = frame_node(open, top);
    let old_n = a[p].children.len() as int;
    lemma_frame_node_range(a, open, top);
    assert forall|j: int| 0 <= j < a.len() && !is_open(open, j) implies (#[trigger] b[j]).kind
        == a[j].kind && b[j].children == a[j].children by {
        if j == p && p != 0 {
            assert(open[top - 1].0 == j);
        }
    }
    let fa = frames_of(a, open);
    let fb = frames_of(b, open);
    let want = fa.update(top, Frame { kind: fa.last().kind, done: fa.last().done + extra });
    assert forall|k: int| 0 <= k <= top implies fb[k] == want[k] by {
        let i = frame_node(open, k);
        lemma_frame_node_range(a, open, k);
        if k < top {
            lemma_frame_nodes_increase(a, open, k, top);
        }
        let cnt = a[i].children.len() - (if k < top {
            1int
        } else {
            0int
        });
        assert forall|w: int| 0 <= w < cnt implies !is_open(open, #[trigger] child_of(a, i, w)) by {
            lemma_frame_children(a, open, k, w);
        }
        lemma_done_stable(a, b, open, i, cnt);
        if k == top {
            let got = done_of(b, p, old_n + extra.len());
            let exp = done_of(a, p, old_n) + extra;
            assert forall|w: int| 0 <= w < old_n + extra.len() implies got[w] == exp[w] by {
                if w < old_n {
                    assert(done_of(b, p, old_n)[w] == got[w]);
                } else {
                    assert(term_of(b, child_of(b, p, w)) == extra[w - old_n]);
                }
            }
            assert(got =~= exp);
        }
    }
    assert(fb =~= want);
}

/// Splicing appends the terms of the arena that comes in to the operands of the innermost
/// frame.
proof fn lemma_spliced_frames(nodes: Seq<NodeView>, open: Seq<NodeId>, other: Seq<NodeView>)
    requires
        arena_ok(nodes),
        stack_ok(nodes, open),
        arena_ok(other),
        nodes.len() + other.len() - 1 <= usize::MAX,
    ensures
        frames_of(spliced(nodes, open, other), open) == frames_of(nodes, open).update(
            open.len() as int,
            Frame {
                kind: frames_of(nodes, open).last().kind,
                done: frames_of(nodes, open).last().done + done_of(
                    other,
                    0,
                    other[0].children.len() as int,
                ),
            },
        ),
{
    let a = nodes;
    let t = other;
    let b = spliced(nodes, open, other);
    let top = open.len() as int;
    let p = frame_node(open, top);
    let off = a.len() - 1;
    let old_n = a[p].children.len() as int;
    let m = t[0].children.len() as int;
    let extra = done_of(t, 0, m);
    lemma_frame_node_range(a, open, top);
    assert forall|w: int| old_n <= w < old_n + extra.len() implies term_of(
        b,
        #[trigger] child_of(b, p, w),
    ) == extra[w - old_n] by {
        let ct = child_of(t, 0, w - old_n);
        assert(0 < ct < t.len());
        assert(child_of(b, p, w) == ct + off);
        lemma_spliced_term(a, open, t, ct);
    }
    lemma_frames_extended(a, b, open, extra);
}

/// An id after a node has been set in at index `q`: an id from `q` on is raised by one.
pub open spec fn raised(id: NodeId, q: int) -> NodeId {
    if id.0 >= q {
        NodeId((id.0 + 1) as usize)
    } else {
        id
    }
}

/// The ids of a child list after a node has been set in at index `q`.
pub open spec fn raised_all(ids: Seq<NodeId>, q: int) -> Seq<NodeId> {
    Seq::new(ids.len(), |k: int| raised(ids[k], q))
}

/// The index at which a node stands that is opened before the `n`-th child of the
/// innermost open node: the index of that child, or the end of the arena where there is
/// no such child.
pub open spec fn wrap_place(nodes: Seq<NodeView>, open: Seq<NodeId>, n: int) -> int {
    let p = frame_node(open, open.len() as int);
    if 0 <= n < nodes[p].children.len() {
        nodes[p].children[n].0 as int
    } else {
        nodes.len() as int
    }
}

/// The arena after a node of kind `kind` has been opened before the `n`-th child of the
/// innermost open node. The new node stands at the index of that child and takes over
/// that child and all behind it; every id from that index on is raised by one, so that
/// each child still lies behind its parent.
pub open spec fn wrapped(nodes: Seq<NodeView>, open: Seq<NodeId>, n: int, kind: ExprKind) -> Seq<
    NodeView,
> {
    let p = frame_node(open, open.len() as int);
    let q = wrap_place(nodes, open, n);
    Seq::new(
        nodes.len() + 1,
        |i: int|
            if i == p {
                NodeView {
                    kind: nodes[p].kind,
                    parent: nodes[p].parent,
                    children: nodes[p].children.take(n).push(NodeId(q as usize)),
                }
            } else if i == q {
                NodeView {
                    kind,
                    parent: NodeId(p as usize),
                    children: raised_all(nodes[p].children.skip(n), q),
                }
            } else {
                let j = if i > q {
                    i - 1
                } else {
                    i
                };
                NodeView {
                    kind: nodes[j].kind,
                    parent: if j >= q && nodes[j].parent.0 == p {
                        NodeId(q as usize)
                    } else {
                        raised(nodes[j].parent, q)
                    },
                    children: raised_all(nodes[j].children, q),
                }
            },
    )
}

/// The frames after a node of kind `kind` has been opened before the `n`-th operand of
/// the innermost frame: that frame keeps its first `n` operands, and a new frame above it
/// holds the others.
pub open spec fn wrapped_frames(frames: Seq<Frame>, n: int, kind: ExprKind) -> Seq<Frame> {
    frames.update(
        frames.len() - 1,
        Frame { kind: frames.last().kind, done: frames.last().done.take(n) },
    ).push(Frame { kind, done: frames.last().done.skip(n) })
}

/// The place of a wrapping node lies behind the innermost open node and every other open
/// node, behind the children that stay, and before the children that it takes over.
proof fn lemma_wrap_place(nodes: Seq<NodeView>, open: Seq<NodeId>, n: int)
    requires
        arena_ok(nodes),
        stack_ok(nodes, open),
        0 <= n <= nodes[frame_node(open, open.len() as int)].children.len(),
    ensures
        0 <= frame_node(open, open.len() as int) < wrap_place(nodes, open, n) <= nodes.len(),
        forall|k: int|
            0 <= k < n ==> #[trigger] child_of(nodes, frame_node(open, open.len() as int), k)
                < wrap_place(nodes, open, n),
        forall|k: int|
            n <= k < nodes[frame_node(open, open.len() as int)].children.len() ==> #[trigger] child_of(
                nodes,
                frame_node(open, open.len() as int),
                k,
            ) >= wrap_place(nodes, open, n),
        forall|k: int| 0 <= k < open.len() ==> (#[trigger] open[k]).0 < wrap_place(nodes, open, n),
        is_open(open, frame_node(open, open.len() as int)),
{
    let top = open.len() as int;
    let p = frame_node(open, top);
    let q = wrap_place(nodes, open, n);
    lemma_frame_node_range(nodes, open, top);
    if n < nodes[p].children.len() {
        assert(child_of(nodes, p, n) == q);
        assert forall|k: int| 0 <= k < n implies #[trigger] child_of(nodes, p, k) < q by {
            assert(child_of(nodes, p, k) < child_of(nodes, p, n));
        }
        assert forall|k: int| n <= k < nodes[p].children.len() implies #[trigger] child_of(
            nodes,
            p,
            k,
        ) >= q by {
            if k > n {
                assert(child_of(nodes, p, n) < child_of(nodes, p, k));
            }
        }
    } else {
        assert forall|k: int| 0 <= k < n implies #[trigger] child_of(nodes, p, k) < q by {
            assert(p < child_of(nodes, p, k) < nodes.len());
        }
    }
    assert forall|k: int| 0 <= k < open.len() implies (#[trigger] open[k]).0 < q by {
        assert(frame_node(open, k + 1) == open[k].0);
        if k + 1 < top {
            lemma_frame_nodes_increase(nodes, open, k + 1, top);
        }
    }
    if top > 0 {
        assert(open[top - 1].0 == p);
    }
}

/// Opening a node before a child keeps the arena a rooted tree.
proof fn lemma_wrapped_arena(nodes: Seq<NodeView>, open: Seq<NodeId>, n: int, kind: ExprKind)
    requires
        arena_ok(nodes),
        stack_ok(nodes, open),
        0 <= n <= nodes[frame_node(open, open.len() as int)].children.len(),
        nodes.len() < usize::MAX,
    ensures
        arena_ok(wrapped(nodes, open, n, kind)),
{
    let a = nodes;
    let b = wrapped(nodes, open, n, kind);
    let p = frame_node(open, open.len() as int);
    let q = wrap_place(nodes, open, n);
    lemma_wrap_place(nodes, open, n);
    assert(b[0].kind == ExprKind::Root && b[0].parent == NodeId(0)) by {
        if p != 0 {
            assert(b[0].parent == raised(a[0].parent, q));
        }
    }
    assert forall|i: int, k: int| 0 <= i < b.len() && 0 <= k < b[i].children.len() implies ({
        let c = #[trigger] child_of(b, i, k);
        i < c < b.len() && b[c].parent.0 == i
    }) by {
        if i == p {
            if k < n {
                let c = child_of(a, p, k);
                assert(p < c < a.len() && a[c].parent.0 == p);
                assert(c < q);
                assert(child_of(b, i, k) == c);
            } else {
                assert(child_of(b, i, k) == q);
            }
        } else if i == q {
            let c = child_of(a, p, n + k);
            assert(p < c < a.len() && a[c].parent.0 == p);
            assert(c >= q);
            assert(child_of(b, i, k) == c + 1);
        } else {
            let j = if i > q {
                i - 1
            } else {
                i
            };
            let c = child_of(a, j, k);
            assert(j < c < a.len() && a[c].parent.0 == j);
            let d = if c >= q {
                c + 1
            } else {
                c
            };
            assert(child_of(b, i, k) == d);
            if d == p {
                assert(parent_of(a, p) == j);
            } else {
                assert(b[d].parent == raised(a[c].parent, q));
            }
        }
    }
    assert forall|i: int, k: int, m: int|
        0 <= i < b.len() && 0 <= k < m < b[i].children.len() implies #[trigger] child_of(b, i, k)
        < #[trigger] child_of(b, i, m) by {
        if i == p {
            assert(child_of(b, i, k) == child_of(a, p, k));
            if m < n {
                assert(child_of(b, i, m) == child_of(a, p, m));
            } else {
                assert(child_of(b, i, m) == q);
            }
        } else if i == q {
            assert(child_of(a, p, n + k) < child_of(a, p, n + m));
            assert(child_of(b, i, k) == raised(a[p].children[n + k], q).0);
            assert(child_of(b, i, m) == raised(a[p].children[n + m], q).0);
        } else {
            let j = if i > q {
                i - 1
            } else {
                i
            };
            assert(child_of(a, j, k) < child_of(a, j, m));
            assert(child_of(a, j, m) < a.len());
            assert(child_of(b, i, k) == raised(a[j].children[k], q).0);
            assert(child_of(b, i, m) == raised(a[j].children[m], q).0);
        }
    }
    assert forall|j: int| 1 <= j < b.len() implies ({
        let g = #[trigger] parent_of(b, j);
        0 <= g < j && b[g].children.contains(NodeId(j as usize))
    }) by {
        if j == q {
            assert(b[p].children[n] == NodeId(j as usize));
        } else if j == p {
            let g = parent_of(a, p);
            assert(0 <= g < p && a[g].children.contains(NodeId(p as usize)));
            let w = choose|w: int|
                0 <= w < a[g].children.len() && a[g].children[w] == NodeId(p as usize);
            assert(b[g].children[w] == NodeId(j as usize));
        } else {
            let s = if j > q {
                j - 1
            } else {
                j
            };
            let g = parent_of(a, s);
            assert(0 <= g < s && a[g].children.contains(NodeId(s as usize)));
            let w = choose|w: int|
                0 <= w < a[g].children.len() && a[g].children[w] == NodeId(s as usize);
            if g == p {
                assert(child_of(a, p, w) == s);
                if s >= q {
                    assert(w >= n);
                    assert(parent_of(b, j) == q);
                    assert(b[q].children[w - n] == NodeId(j as usize));
                } else {
                    assert(w < n);
                    assert(parent_of(b, j) == p);
                    assert(b[p].children[w] == NodeId(j as usize));
                }
            } else {
                let h = if g >= q {
                    g + 1
                } else {
                    g
                };
                assert(parent_of(b, j) == h);
                assert(b[h].children[w] == NodeId(j as usize));
            }
        }
    }
}

/// A node that is not open keeps its term when a node is opened before a child.
proof fn lemma_wrapped_term(
    nodes: Seq<NodeView>,
    open: Seq<NodeId>,
    n: int,
    kind: ExprKind,
    j: int,
)
    requires
        arena_ok(nodes),
        stack_ok(nodes, open),
        0 <= n <= nodes[frame_node(open, open.len() as int)].children.len(),
        nodes.len() < usize::MAX,
        0 <= j < nodes.len(),
        !is_open(open, j),
    ensures
        term_of(
            wrapped(nodes, open, n, kind),
            raised(NodeId(j as usize), wrap_place(nodes, open, n)).0 as int,
        ) == term_of(nodes, j),
    decreases nodes.len() - j,
{
    let a = nodes;
    let b = wrapped(nodes, open, n, kind);
    let q = wrap_place(nodes, open, n);
    lemma_wrap_place(nodes, open, n);
    let i = if j >= q {
        j + 1
    } else {
        j
    };
    assert(b[i].kind == a[j].kind);
    assert(b[i].children == raised_all(a[j].children, q));
    assert forall|k: int| 0 <= k < a[j].children.len() implies term_of(b, i).args[k] == term_of(
        a,
        j,
    ).args[k] by {
        let c = child_of(a, j, k);
        assert(j < c < a.len());
        lemma_closed_below(a, open, j, k);
        lemma_wrapped_term(a, open, n, kind, c);
        let d = if c >= q {
            c + 1
        } else {
            c
        };
        assert(child_of(b, i, k) == d);
    }
    assert(term_of(b, i).args =~= term_of(a, j).args);
}

/// Opening a node before a child keeps the open nodes in place, makes the new node the
/// innermost, and moves the operands from that child on into its frame.
proof fn lemma_wrapped_frames(nodes: Seq<NodeView>, open: Seq<NodeId>, n: int, kind: ExprKind)
    requires
        arena_ok(nodes),
        stack_ok(nodes, open),
        0 <= n <= nodes[frame_node(open, open.len() as int)].children.len(),
        nodes.len() < usize::MAX,
    ensures
        stack_ok(
            wrapped(nodes, open, n, kind),
            open.push(NodeId(wrap_place(nodes, open, n) as usize)),
        ),
        frames_of(
            wrapped(nodes, open, n, kind),
            open.push(NodeId(wrap_place(nodes, open, n) as usize)),
        ) == wrapped_frames(frames_of(nodes, open), n, kind),
{
    let a = nodes;
    let b = wrapped(nodes, open, n, kind);
    let top = open.len() as int;
    let p = frame_node(open, top);
    let q = wrap_place(nodes, open, n);
    let open_b = open.push(NodeId(q as usize));
    lemma_wrap_place(nodes, open, n);
    assert forall|k: int| 0 <= k < open_b.len() implies ({
        let c = open_b[k].0 as int;
        let g = #[trigger] frame_node(open_b, k);
        &&& 1 <= c < b.len()
        &&& b[c].parent.0 == g
        &&& b[g].children.len() > 0
        &&& b[g].children.last() == open_b[k]
    }) by {
        if k < top {
            let c = open[k].0 as int;
            let g = frame_node(open, k);
            assert(open_b[k] == open[k]);
            assert(frame_node(open_b, k) == g);
            lemma_frame_nodes_increase(a, open, k, top);
            lemma_frame_node_range(a, open, k);
            assert(a[c].parent.0 == g && a[g].children.last() == open[k]);
            assert(c < q);
            if c != p {
                assert(b[c].parent == raised(a[c].parent, q));
            }
            let last = a[g].children.len() - 1;
            assert(b[g].children[last] == raised(a[g].children[last], q));
        } else {
            assert(frame_node(open_b, k) == p);
            assert(b[p].children.last() == NodeId(q as usize));
        }
    }
    let fa = frames_of(a, open);
    let fb = frames_of(b, open_b);
    let want = wrapped_frames(fa, n, kind);
    assert(fb.len() == want.len());
    assert forall|k: int| 0 <= k < fb.len() implies fb[k] == want[k] by {
        if k < top {
            let i = frame_node(open, k);
            assert(frame_node(open_b, k) == i);
            lemma_frame_nodes_increase(a, open, k, top);
            lemma_frame_node_range(a, open, k);
            let cnt = a[i].children.len() - 1;
            assert(b[i].children == raised_all(a[i].children, q));
            assert forall|m: int| 0 <= m < cnt implies done_of(b, i, cnt)[m] == done_of(
                a,
                i,
                cnt,
            )[m] by {
                let c = child_of(a, i, m);
                assert(i < c < a.len());
                lemma_frame_children(a, open, k, m);
                lemma_wrapped_term(a, open, n, kind, c);
                assert(child_of(b, i, m) == raised(NodeId(c as usize), q).0);
            }
            assert(done_of(b, i, cnt) =~= done_of(a, i, cnt));
        } else if k == top {
            assert(frame_node(open_b, k) == p);
            let all = a[p].children.len() as int;
            assert forall|m: int| 0 <= m < n implies done_of(b, p, n)[m] == done_of(a, p, all).take(
                n,
            )[m] by {
                let c = child_of(a, p, m);
                assert(p < c < a.len());
                lemma_frame_children(a, open, top, m);
                lemma_wrapped_term(a, open, n, kind, c);
                assert(child_of(b, p, m) == c);
            }
            assert(done_of(b, p, n) =~= done_of(a, p, all).take(n));
        } else {
            assert(frame_node(open_b, k) == q);
            let all = a[p].children.len() as int;
            assert forall|m: int| 0 <= m < all - n implies done_of(b, q, all - n)[m] == done_of(
                a,
                p,
                all,
            ).skip(n)[m] by {
                let c = child_of(a, p, n + m);
                assert(p < c < a.len());
                lemma_frame_children(a, open, top, n + m);
                lemma_wrapped_term(a, open, n, kind, c);
                assert(child_of(b, q, m) == raised(NodeId(c as usize), q).0);
            }
            assert(done_of(b, q, all - n) =~= done_of(a, p, all).skip(n));
        }
    }
    assert(fb =~= want);
}

/// A node of the arena.
#[derive(Clone, Debug)]
pub struct Node {
    kind: ExprKind,
    parent: NodeId,
    children: Vec<NodeId>,
    id: usize,
}

impl View for Node {
    type V = NodeView;

    closed spec fn view(&self) -> NodeView {
        NodeView { kind: self.kind, parent: self.parent, children: self.children@ }
    }
}

impl Node {
    /// The index under which the node stands in its arena.
    pub closed spec fn index(&self) -> NodeId {
        NodeId(self.id)
    }

    /// Kind of the node.
    pub fn kind(&self) -> (r: ExprKind)
        ensures
            r == self@.kind,
    {
        self.kind
    }

    /// Id of the node.
    pub fn id(&self) -> (r: NodeId)
        ensures
            r == self.index(),
    {
        NodeId(self.id)
    }

    /// Parent of the node; the root is its own parent.
    pub fn parent(&self) -> (r: NodeId)
        ensures
            r == self@.parent,
    {
        self.parent
    }

    /// Children of the node, in order.
    pub fn children(&self) -> (r: &Vec<NodeId>)
        ensures
            r@ == self@.children,
    {
        &self.children
    }
}

/// A place among the children of the node that was current when the checkpoint was
/// taken: a node can be opened there later and then takes over the children from that
/// place on.
#[derive(Clone, Copy, Debug)]
pub struct Checkpoint {
    child_no: usize,
    parent: usize,
}

impl Checkpoint {
    /// The node that was current when the checkpoint was taken.
    pub closed spec fn spec_parent(&self) -> NodeId {
        NodeId(self.parent)
    }

    /// The number of children that the node had when the checkpoint was taken.
    pub closed spec fn spec_child_no(&self) -> nat {
        self.child_no as nat
    }
}

/// The ids of `ids` from index `from` up to index `to`, each as it is after a node has
/// been set in at index `q`.
fn raise_ids(ids: &Vec<NodeId>, from: usize, to: usize, q: usize) -> (r: Vec<NodeId>)
    requires
        from <= to <= ids@.len(),
        forall|k: int| 0 <= k < ids@.len() ==> (#[trigger] ids@[k]).0 < usize::MAX,
    ensures
        r@ == raised_all(ids@.subrange(from as int, to as int), q as int),
{
    let mut out: Vec<NodeId> = Vec::new();
    let mut k: usize = from;
    while k < to
        invariant
            from <= k <= to <= ids@.len(),
            forall|w: int| 0 <= w < ids@.len() ==> (#[trigger] ids@[w]).0 < usize::MAX,
            out@ == raised_all(ids@.subrange(from as int, k as int), q as int),
        decreases to - k,
    {
        let id = ids[k];
        let moved = if id.0 >= q {
            NodeId(id.0 + 1)
        } else {
            id
        };
        out.push(moved);
        proof {
            assert(out@ =~= raised_all(ids@.subrange(from as int, k + 1), q as int));
        }
        k += 1;
    }
    out
}

/// An expression tree in an arena, with the stack of the nodes that are still open.
#[derive(Clone, Debug)]
pub struct Tree {
    nodes: Vec<Node>,
    current: Vec<usize>,
}

impl Tree {
    /// The records of all nodes, by index.
    pub closed spec fn nodes(&self) -> Seq<NodeView> {
        Seq::new(self.nodes@.len(), |i: int| self.nodes@[i]@)
    }

    /// The open nodes, the innermost last.
    pub closed spec fn open(&self) -> Seq<NodeId> {
        Seq::new(self.current@.len(), |k: int| NodeId(self.current@[k]))
    }

    /// The arena is a rooted tree with dense ids, and the open nodes form a path from the
    /// root along last children.
    pub closed spec fn wf(&self) -> bool {
        &&& arena_ok(self.nodes())
        &&& stack_ok(self.nodes(), self.open())
        &&& forall|i: int| 0 <= i < self.nodes@.len() ==> (#[trigger] self.nodes@[i]).id == i
    }

    /// The number of nodes, the root included.
    pub open spec fn spec_len(&self) -> nat {
        self.nodes().len()
    }

    /// The frames: one for the root, one for each open node.
    pub open spec fn frames(&self) -> Seq<Frame> {
        frames_of(self.nodes(), self.open())
    }

    /// No node is open.
    pub open spec fn finished(&self) -> bool {
        self.open().len() == 0
    }

    /// The top-level terms of the tree.
    pub open spec fn terms(&self) -> Seq<Term> {
        self.frames()[0].done
    }

    /// The term rooted at the node `id`.
    pub open spec fn term_at(&self, id: NodeId) -> Term {
        term_of(self.nodes(), id.0 as int)
    }

    /// What well-formedness means for the arena.
    pub proof fn lemma_wf(&self)
        requires
            self.wf(),
        ensures
            arena_ok(self.nodes()),
            stack_ok(self.nodes(), self.open()),
    {
    }

    /// The term of a node is its kind over the terms of its children, which lie behind it.
    pub proof fn lemma_term_at(&self, id: NodeId)
        requires
            self.wf(),
            id.0 < self.spec_len(),
        ensures
            self.term_at(id) == (Term {
                kind: self.nodes()[id.0 as int].kind,
                args: done_of(
                    self.nodes(),
                    id.0 as int,
                    self.nodes()[id.0 as int].children.len() as int,
                ),
            }),
            forall|k: int|
                0 <= k < self.nodes()[id.0 as int].children.len() ==> id.0 < (
                #[trigger] self.nodes()[id.0 as int].children[k]).0 < self.spec_len(),
    {
        lemma_term_unfold(self.nodes(), id.0 as int);
        assert forall|k: int| 0 <= k < self.nodes()[id.0 as int].children.len() implies id.0 < (
        #[trigger] self.nodes()[id.0 as int].children[k]).0 < self.spec_len() by {
            assert(id.0 < child_of(self.nodes(), id.0 as int, k) < self.spec_len());
        }
    }

    /// A tree that holds the root only.
    pub fn new() -> (r: Tree)
        ensures
            r.wf(),
            r.nodes() == seq![
                NodeView { kind: ExprKind::Root, parent: NodeId(0), children: Seq::empty() },
            ],
            r.open() == Seq::<NodeId>::empty(),
            r.frames() == seq![Frame { kind: ExprKind::Root, done: Seq::empty() }],
    {
        let root = Node { kind: ExprKind::Root, parent: NodeId(0), children: Vec::new(), id: 0 };
        let mut nodes: Vec<Node> = Vec::new();
        nodes.push(root);
        let r = Tree { nodes, current: Vec::new() };
        proof {
            assert(r.nodes() =~= seq![
                NodeView { kind: ExprKind::Root, parent: NodeId(0), children: Seq::empty() },
            ]);
            assert(r.open() =~= Seq::<NodeId>::empty());
            assert(done_of(r.nodes(), 0, 0) =~= Seq::<Term>::empty());
            assert(r.frames() =~= seq![Frame { kind: ExprKind::Root, done: Seq::empty() }]);
        }
        r
    }

    /// Whether no node is open.
    pub fn is_finished(&self) -> (r: bool)
        ensures
            r == self.finished(),
    {
        self.current.len() == 0
    }

    /// The number of nodes, the root included.
    pub fn len(&self) -> (r: usize)
        ensures
            r == self.spec_len(),
    {
        self.nodes.len()
    }

    /// The root.
    pub fn root(&self) -> (r: &Node)
        requires
            self.wf(),
        ensures
            self.spec_len() >= 1,
            r@ == self.nodes()[0],
            r@.kind == ExprKind::Root,
            r.index() == NodeId(0),
            self.finished() ==> self.terms() == self.term_at(NodeId(0)).args,
    {
        proof {
            self.lemma_wf();
            lemma_term_unfold(self.nodes(), 0);
        }
        &self.nodes[0]
    }

    /// The node that receives what is pushed next: the innermost open node, or the root.
    pub open spec fn current(&self) -> NodeId {
        NodeId(frame_node(self.open(), self.open().len() as int) as usize)
    }

    /// Opens a node of the given kind as the next child of the current node and makes it
    /// the current node.
    pub fn start_node(&mut self, kind: ExprKind)
        requires
            old(self).wf(),
        ensures
            final(self).wf(),
            final(self).nodes() == opened(old(self).nodes(), old(self).open(), kind),
            final(self).open() == old(self).open().push(NodeId(old(self).spec_len() as usize)),
            final(self).frames() == old(self).frames().push(Frame { kind, done: Seq::empty() }),
    {
        let current = self.nodes.len();
        let parent = if self.current.len() > 0 {
            self.current[self.current.len() - 1]
        } else {
            0
        };
        proof {
            lemma_frame_node_range(self.nodes(), self.open(), self.open().len() as int);
            assert(parent == frame_node(self.open(), self.open().len() as int));
        }
        self.current.push(current);
        self.nodes[parent].children.push(NodeId(current));
        self.nodes.push(Node { kind, parent: NodeId(parent), children: Vec::new(), id: current });
        let grown = self.nodes.len();
        proof {
            assert(old(self).nodes().len() + 1 == grown);
            lemma_opened(old(self).nodes(), old(self).open(), kind);
            assert(self.nodes() =~= opened(old(self).nodes(), old(self).open(), kind));
            assert(self.open() =~= old(self).open().push(NodeId(old(self).spec_len() as usize)));
        }
    }

    /// Closes the current node and returns its id; the node below becomes current.
    pub fn finish_node(&mut self) -> (id: NodeId)
        requires
            old(self).wf(),
            !old(self).finished(),
        ensures
            final(self).wf(),
            id == old(self).open().last(),
            final(self).nodes() == old(self).nodes(),
            final(self).open() == old(self).open().drop_last(),
            final(self).frames() == closed_frames(old(self).frames()),
    {
        proof {
            lemma_closed(self.nodes(), self.open());
        }
        let current = self.current.pop().unwrap();
        proof {
            assert(self.open() =~= old(self).open().drop_last());
            assert(self.nodes() =~= old(self).nodes());
        }
        NodeId(current)
    }

    /// Adds a leaf of the given kind as the next child of the current node and returns its
    /// id. The open nodes stay as they are.
    pub fn push(&mut self, kind: ExprKind) -> (id: NodeId)
        requires
            old(self).wf(),
        ensures
            final(self).wf(),
            id == NodeId(old(self).spec_len() as usize),
            final(self).nodes() == opened(old(self).nodes(), old(self).open(), kind),
            final(self).open() == old(self).open(),
            final(self).frames() == old(self).frames().update(
                old(self).frames().len() - 1,
                Frame {
                    kind: old(self).frames().last().kind,
                    done: old(self).frames().last().done.push(Term::leaf(kind)),
                },
            ),
    {
        self.start_node(kind);
        let id = self.finish_node();
        proof {
            assert(self.open() =~= old(self).open());
            assert(self.frames() =~= old(self).frames().update(
                old(self).frames().len() - 1,
                Frame {
                    kind: old(self).frames().last().kind,
                    done: old(self).frames().last().done.push(Term::leaf(kind)),
                },
            ));
        }
        id
    }

    /// Appends to the child list of node `target` the ids of `source`, each raised by `off`.
    fn append_children(&mut self, target: usize, source: &Vec<NodeId>, off: usize)
        requires
            target < old(self).nodes@.len(),
            forall|k: int| 0 <= k < source@.len() ==> (#[trigger] source@[k]).0 + off <= usize::MAX,
        ensures
            final(self).current == old(self).current,
            final(self).nodes@.len() == old(self).nodes@.len(),
            forall|i: int|
                0 <= i < final(self).nodes@.len() && i != target ==> #[trigger] final(self).nodes@[i] == old(self).nodes@[i],
            final(self).nodes@[target as int].kind == old(self).nodes@[target as int].kind,
            final(self).nodes@[target as int].parent == old(self).nodes@[target as int].parent,
            final(self).nodes@[target as int].id == old(self).nodes@[target as int].id,
            final(self).nodes@[target as int].children@ == old(self).nodes@[target as int].children@ + shifted(source@, off as int),
    {
        let mut k: usize = 0;
        while k < source.len()
            invariant
                k <= source@.len(),
                target < self.nodes@.len(),
                forall|w: int|
                    0 <= w < source@.len() ==> (#[trigger] source@[w]).0 + off <= usize::MAX,
                self.current == old(self).current,
                self.nodes@.len() == old(self).nodes@.len(),
                forall|i: int|
                    0 <= i < self.nodes@.len() && i != target ==> #[trigger] self.nodes@[i] == old(self).nodes@[i],
                self.nodes@[target as int].kind == old(self).nodes@[target as int].kind,
                self.nodes@[target as int].parent == old(self).nodes@[target as int].parent,
                self.nodes@[target as int].id == old(self).nodes@[target as int].id,
                self.nodes@[target as int].children@ == old(self).nodes@[target as int].children@
                    + shifted(source@.take(k as int), off as int),
            decreases source@.len() - k,
        {
            let child = source[k].0 + off;
            self.nodes[target].children.push(NodeId(child));
            proof {
                assert(shifted(source@.take(k as int), off as int).push(NodeId(child)) =~= shifted(
                    source@.take(k + 1),
                    off as int,
                ));
                assert(self.nodes@[target as int].children@ =~= old(self).nodes@[target as int].children@ + shifted(source@.take(k + 1), off as int));
            }
            k += 1;
        }
        proof {
            assert(source@.take(k as int) =~= source@);
        }
    }

    /// Splices a finished tree in: its top-level nodes become the next children of the
    /// current node, and each of its ids is raised by the number of nodes that this tree
    /// holds besides the root.
    pub fn push_tree(&mut self, tree: Tree)
        requires
            old(self).wf(),
            tree.wf(),
            tree.finished(),
        ensures
            final(self).wf(),
            final(self).nodes() == spliced(old(self).nodes(), old(self).open(), tree.nodes()),
            final(self).open() == old(self).open(),
            final(self).frames() == old(self).frames().update(
                old(self).frames().len() - 1,
                Frame {
                    kind: old(self).frames().last().kind,
                    done: old(self).frames().last().done + tree.terms(),
                },
            ),
    {
        let parent = if self.current.len() > 0 {
            self.current[self.current.len() - 1]
        } else {
            0
        };
        let off = self.nodes.len() - 1;
        let count = tree.nodes.len();
        let ghost a = self.nodes();
        let ghost t = tree.nodes();
        let ghost open = self.open();
        proof {
            lemma_frame_node_range(a, open, open.len() as int);
            assert(parent == frame_node(open, open.len() as int));
        }
        let mut j: usize = 1;
        while j < count
            invariant
                1 <= j <= count,
                count == tree.nodes@.len(),
                tree.wf(),
                t == tree.nodes(),
                off + 1 == a.len(),
                parent < a.len(),
                self.current == old(self).current,
                self.nodes@.len() == off + j,
                old(self).nodes@.len() == off + 1,
                forall|i: int| 0 <= i <= off ==> #[trigger] self.nodes@[i] == old(self).nodes@[i],
                forall|i: int|
                    off < i < off + j ==> {
                        let n = #[trigger] self.nodes@[i];
                        &&& n.id == i
                        &&& n.kind == t[i - off].kind
                        &&& n.children@.len() == 0
                        &&& n.parent == if t[i - off].parent.0 == 0 {
                            NodeId(parent)
                        } else {
                            NodeId((t[i - off].parent.0 + off) as usize)
                        }
                    },
            decreases count - j,
        {
            let source = &tree.nodes[j];
            proof {
                assert(t[j as int] == source@);
                assert(0 <= parent_of(t, j as int) < j);
            }
            let id = self.nodes.len();
            let up = if source.parent.0 == 0 {
                NodeId(parent)
            } else {
                NodeId(source.parent.0 + off)
            };
            self.nodes.push(Node { kind: source.kind, parent: up, children: Vec::new(), id });
            j += 1;
        }
        let total = self.nodes.len();
        let ghost bare = self.nodes@;
        j = 1;
        while j < count
            invariant
                1 <= j <= count,
                count == tree.nodes@.len(),
                tree.wf(),
                t == tree.nodes(),
                off + 1 == a.len(),
                total == off + count,
                self.current == old(self).current,
                self.nodes@.len() == total,
                bare.len() == total,
                forall|i: int|
                    0 <= i < total && !(off < i < off + j) ==> #[trigger] self.nodes@[i] == bare[i],
                forall|i: int|
                    off < i < off + j ==> {
                        let n = #[trigger] self.nodes@[i];
                        &&& n.id == bare[i].id
                        &&& n.kind == bare[i].kind
                        &&& n.parent == bare[i].parent
                        &&& n.children@ == shifted(t[i - off].children, off as int)
                    },
                forall|i: int| off < i < total ==> (#[trigger] bare[i]).children@.len() == 0,
            decreases count - j,
        {
            let source = &tree.nodes[j];
            proof {
                assert(t[j as int] == source@);
                assert forall|k: int| 0 <= k < source.children@.len() implies (
                #[trigger] source.children@[k]).0 + off <= usize::MAX by {
                    assert(child_of(t, j as int, k) < t.len());
                }
                assert(self.nodes@[off + j] == bare[off + j]);
            }
            let ghost before = self.nodes@;
            self.append_children(off + j, &source.children, off);
            proof {
                assert(self.nodes@[off + j].children@ =~= shifted(t[j as int].children, off as int));
            }
            j += 1;
        }
        let top_level = &tree.nodes[0].children;
        proof {
            assert(t[0] == tree.nodes@[0]@);
            assert forall|k: int| 0 <= k < top_level@.len() implies (#[trigger] top_level@[k]).0
                + off <= usize::MAX by {
                assert(child_of(t, 0, k) < t.len());
            }
        }
        self.append_children(parent, top_level, off);
        proof {
            let b = spliced(a, open, t);
            assert(self.nodes().len() == b.len());
            assert forall|i: int| 0 <= i < b.len() implies self.nodes()[i] == b[i] by {
                if i <= off {
                    if i != parent {
                        assert(self.nodes@[i] == bare[i]);
                        assert(bare[i] == old(self).nodes@[i]);
                    } else {
                        assert(bare[i] == old(self).nodes@[i]);
                    }
                } else {
                    assert(bare[i].id == i);
                }
            }
            assert(self.nodes() =~= b);
            assert(self.open() =~= open);
            lemma_spliced_arena(a, open, t);
            lemma_spliced_stack(a, open, t);
            lemma_spliced_frames(a, open, t);
            assert forall|i: int| 0 <= i < self.nodes@.len() implies (#[trigger] self.nodes@[i]).id
                == i by {
                if i <= off {
                    assert(bare[i] == old(self).nodes@[i]);
                } else {
                    assert(bare[i].id == i);
                }
            }
        }
    }

    /// The place behind the children that the current node has now.
    pub fn checkpoint(&self) -> (r: Checkpoint)
        requires
            self.wf(),
        ensures
            r.spec_parent() == self.current(),
            r.spec_child_no() == self.frames().last().done.len(),
    {
        let parent = if self.current.len() > 0 {
            self.current[self.current.len() - 1]
        } else {
            0
        };
        proof {
            lemma_frame_node_range(self.nodes(), self.open(), self.open().len() as int);
            assert(parent == frame_node(self.open(), self.open().len() as int));
        }
        Checkpoint { child_no: self.nodes[parent].children.len(), parent }
    }

    /// Opens a node of the given kind at a checkpoint of the current node and makes it the
    /// current node: it becomes the child at the place of the checkpoint and takes over,
    /// in order, the children that the current node has received since. The new node
    /// takes the id of the first child that it takes over, and every id from there on is
    /// raised by one; with nothing to take over this is `start_node`.
    pub fn start_node_at(&mut self, checkpoint: Checkpoint, kind: ExprKind)
        requires
            old(self).wf(),
            checkpoint.spec_parent() == old(self).current(),
            checkpoint.spec_child_no() <= old(self).frames().last().done.len(),
        ensures
            final(self).wf(),
            final(self).nodes() == wrapped(
                old(self).nodes(),
                old(self).open(),
                checkpoint.spec_child_no() as int,
                kind,
            ),
            final(self).open() == old(self).open().push(
                NodeId(
                    wrap_place(old(self).nodes(), old(self).open(), checkpoint.spec_child_no() as int)
                        as usize,
                ),
            ),
            final(self).frames() == old(self).frames().update(
                old(self).frames().len() - 1,
                Frame {
                    kind: old(self).frames().last().kind,
                    done: old(self).frames().last().done.take(checkpoint.spec_child_no() as int),
                },
            ).push(
                Frame {
                    kind,
                    done: old(self).frames().last().done.skip(checkpoint.spec_child_no() as int),
                },
            ),
    {
        let parent = checkpoint.parent;
        let n = checkpoint.child_no;
        let count = self.nodes.len();
        let ghost a = self.nodes();
        let ghost open = self.open();
        proof {
            lemma_frame_node_range(a, open, open.len() as int);
            assert(parent == frame_node(open, open.len() as int));
            lemma_wrap_place(a, open, n as int);
        }
        let all = self.nodes[parent].children.len();
        let q: usize = if n < all {
            self.nodes[parent].children[n].0
        } else {
            count
        };
        let ghost b = wrapped(a, open, n as int, kind);
        let mut fresh: Vec<Node> = Vec::new();
        let mut i: usize = 0;
        while i < count
            invariant
                i <= count,
                count == self.nodes@.len(),
                *self == *old(self),
                a == self.nodes(),
                open == self.open(),
                arena_ok(a),
                stack_ok(a, open),
                forall|t: int| 0 <= t < self.nodes@.len() ==> (#[trigger] self.nodes@[t]).id == t,
                parent == frame_node(open, open.len() as int),
                n <= all,
                all == a[parent as int].children.len(),
                q == wrap_place(a, open, n as int),
                parent < q <= count,
                b == wrapped(a, open, n as int, kind),
                fresh@.len() == (if i > q {
                    i + 1
                } else {
                    i as int
                }),
                forall|t: int|
                    0 <= t < fresh@.len() ==> (#[trigger] fresh@[t])@ == b[t] && fresh@[t].id == t,
            decreases count - i,
        {
            proof {
                lemma_wrap_place(a, open, n as int);
            }
            proof {
                assert forall|k: int| 0 <= k < a[parent as int].children.len() implies (
                #[trigger] a[parent as int].children[k]).0 < usize::MAX by {
                    assert(child_of(a, parent as int, k) < a.len());
                }
                assert forall|k: int| 0 <= k < a[i as int].children.len() implies (
                #[trigger] a[i as int].children[k]).0 < usize::MAX by {
                    assert(child_of(a, i as int, k) < a.len());
                }
            }
            if i == q {
                assert(self.nodes@[parent as int]@ == a[parent as int]);
                let taken = raise_ids(&self.nodes[parent].children, n, all, q);
                proof {
                    assert(a[parent as int].children.subrange(n as int, all as int)
                        =~= a[parent as int].children.skip(n as int));
                }
                fresh.push(Node { kind, parent: NodeId(parent), children: taken, id: q });
            }
            let at = fresh.len();
            let node = &self.nodes[i];
            let ghost view = a[i as int];
            assert(node@ == view);
            let children = if i == parent {
                let mut kept = raise_ids(&node.children, 0, n, q);
                proof {
                    assert forall|k: int| 0 <= k < n implies raised_all(
                        view.children.subrange(0, n as int),
                        q as int,
                    )[k] == view.children.take(n as int)[k] by {
                        assert(child_of(a, parent as int, k) < q);
                    }
                    assert(kept@ =~= view.children.take(n as int));
                }
                kept.push(NodeId(q));
                kept
            } else {
                let len = node.children.len();
                proof {
                    assert(view.children.subrange(0, len as int) =~= view.children);
                }
                raise_ids(&node.children, 0, len, q)
            };
            let above = if i >= q && node.parent.0 == parent {
                NodeId(q)
            } else if node.parent.0 >= q {
                proof {
                    if i >= 1 {
                        assert(0 <= parent_of(a, i as int) < i);
                    }
                }
                NodeId(node.parent.0 + 1)
            } else {
                node.parent
            };
            proof {
                if i == parent && i >= 1 {
                    assert(0 <= parent_of(a, i as int) < i);
                }
            }
            fresh.push(Node { kind: node.kind, parent: above, children, id: at });
            proof {
                assert(fresh@[at as int]@ == b[at as int]);
            }
            i += 1;
        }
        if q == count {
            proof {
                if n < all {
                    assert(child_of(a, parent as int, n as int) < a.len());
                }
                assert(a[parent as int].children.skip(n as int) =~= Seq::<NodeId>::empty());
                assert(raised_all(Seq::<NodeId>::empty(), q as int) =~= Seq::<NodeId>::empty());
            }
            fresh.push(Node { kind, parent: NodeId(parent), children: Vec::new(), id: q });
        }
        let grown = fresh.len();
        self.nodes = fresh;
        self.current.push(q);
        proof {
            assert(grown == count + 1);
            assert(self.nodes() =~= b);
            assert(self.open() =~= open.push(NodeId(q)));
            lemma_wrapped_arena(a, open, n as int, kind);
            lemma_wrapped_frames(a, open, n as int, kind);
        }
    }

    /// The node with the given id, which must be one of this tree.
    pub fn node(&self, id: NodeId) -> (r: &Node)
        requires
            self.wf(),
            id.0 < self.spec_len(),
        ensures
            r@ == self.nodes()[id.0 as int],
            r.index() == id,
    {
        &self.nodes[id.0]
    }
}

} // verus!
