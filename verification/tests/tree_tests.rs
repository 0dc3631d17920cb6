use symrs::{
    treeify_node, ExprKind, Expressand, Expression, NodeId, Scalar, Step, System, Tree,
    TreeElement, LeafId, Var,
};
use std::ops::{Add, Div, Mul, Neg, Sub};

fn constant(n: i64) -> ExprKind {
    ExprKind::Const(Scalar::integer(n))
}

fn variable(id: usize) -> ExprKind {
    ExprKind::Var(Var { id })
}

/// (x0 + 2) * x1, built by hand.
fn sample() -> Tree {
    let mut tree = Tree::new();
    tree.start_node(ExprKind::Mul);
    tree.start_node(ExprKind::Add);
    tree.push(variable(0));
    tree.push(constant(2));
    tree.finish_node();
    tree.push(variable(1));
    tree.finish_node();
    tree
}

#[test]
fn a_new_tree_holds_the_root_only() {
    let tree = Tree::new();
    assert_eq!(tree.len(), 1);
    assert!(tree.is_finished());
    assert_eq!(tree.root().kind(), ExprKind::Root);
    assert_eq!(tree.root().id(), NodeId(0));
    assert_eq!(tree.root().parent(), NodeId(0));
    assert!(tree.root().children().is_empty());
    let other = Tree::default();
    assert_eq!(other.len(), 1);
    assert_eq!(NodeId::root(), NodeId(0));
}

#[test]
fn the_builder_gives_dense_ids_in_order_of_creation() {
    let mut tree = Tree::new();
    tree.start_node(ExprKind::Mul);
    assert!(!tree.is_finished());
    tree.start_node(ExprKind::Add);
    assert_eq!(tree.push(variable(0)), NodeId(3));
    assert_eq!(tree.push(constant(2)), NodeId(4));
    assert_eq!(tree.finish_node(), NodeId(2));
    assert_eq!(tree.push(variable(1)), NodeId(5));
    assert_eq!(tree.finish_node(), NodeId(1));
    assert!(tree.is_finished());
    assert_eq!(tree.len(), 6);
    assert_eq!(tree.root().children(), &vec![NodeId(1)]);
    let product = tree.node(NodeId(1));
    assert_eq!(product.kind(), ExprKind::Mul);
    assert_eq!(product.parent(), NodeId(0));
    assert_eq!(product.children(), &vec![NodeId(2), NodeId(5)]);
    let sum = tree.node(NodeId(2));
    assert_eq!(sum.kind(), ExprKind::Add);
    assert_eq!(sum.parent(), NodeId(1));
    assert_eq!(sum.children(), &vec![NodeId(3), NodeId(4)]);
    for id in 0..6 {
        assert_eq!(tree.node(NodeId(id)).id(), NodeId(id));
        assert_eq!(NodeId(id).get(&tree).id(), NodeId(id));
        assert_eq!(NodeId(id).get_from_builder(&tree).id(), NodeId(id));
    }
    assert_eq!(tree.node(NodeId(4)).kind(), constant(2));
    assert_eq!(tree.node(NodeId(4)).parent(), NodeId(2));
}

#[test]
fn splicing_raises_ids_by_the_number_of_nodes_besides_the_root() {
    let mut tree = Tree::new();
    tree.start_node(ExprKind::Add);
    tree.push(variable(7));
    tree.push_tree(sample());
    tree.push(constant(9));
    tree.finish_node();
    // two nodes besides the root were there: every id of the sample goes up by two
    assert_eq!(tree.len(), 9);
    let top = tree.node(NodeId(1));
    assert_eq!(top.children(), &vec![NodeId(2), NodeId(3), NodeId(8)]);
    let product = tree.node(NodeId(3));
    assert_eq!(product.kind(), ExprKind::Mul);
    assert_eq!(product.parent(), NodeId(1));
    assert_eq!(product.children(), &vec![NodeId(4), NodeId(7)]);
    let sum = tree.node(NodeId(4));
    assert_eq!(sum.kind(), ExprKind::Add);
    assert_eq!(sum.parent(), NodeId(3));
    assert_eq!(sum.children(), &vec![NodeId(5), NodeId(6)]);
    assert_eq!(tree.node(NodeId(5)).kind(), variable(0));
    assert_eq!(tree.node(NodeId(6)).kind(), constant(2));
    assert_eq!(tree.node(NodeId(7)).kind(), variable(1));
    assert_eq!(tree.node(NodeId(7)).parent(), NodeId(3));
    assert_eq!(tree.node(NodeId(8)).kind(), constant(9));
    for id in 0..9 {
        assert_eq!(tree.node(NodeId(id)).id(), NodeId(id));
    }
}

#[test]
fn splicing_into_the_root_adds_top_level_nodes() {
    let mut tree = Tree::new();
    tree.push_tree(sample());
    tree.push_tree(sample());
    assert_eq!(tree.root().children(), &vec![NodeId(1), NodeId(6)]);
    let roots = tree.sub_roots();
    assert_eq!(roots.len(), 2);
    assert_eq!(roots[0].kind(), ExprKind::Mul);
    assert_eq!(roots[1].id(), NodeId(6));
    assert_eq!(tree.node(NodeId(6)).children(), &vec![NodeId(7), NodeId(10)]);
    // more than one top-level term is no expression
    assert!(Expressand::new(tree).is_none());
}

#[test]
fn a_copy_of_a_subtree_stands_alone() {
    let tree = sample();
    let copy = treeify_node(&tree, NodeId(2));
    assert_eq!(copy.len(), 4);
    assert_eq!(copy.node(NodeId(1)).kind(), ExprKind::Add);
    assert_eq!(copy.node(NodeId(1)).children(), &vec![NodeId(2), NodeId(3)]);
    assert_eq!(copy.node(NodeId(2)).kind(), variable(0));
    assert_eq!(copy.node(NodeId(3)).kind(), constant(2));
    let whole = treeify_node(&tree, NodeId(0));
    assert_eq!(whole.len(), tree.len());
    let sys = System::new();
    let e = Expression::from(3).add(Expression::from(4));
    let f = e.clone();
    assert_eq!(sys.str(&e), sys.str(&f));
    assert_eq!(e.tree().len(), 4);
}

#[test]
fn only_a_well_formed_tree_is_an_expression() {
    assert!(Expressand::new(sample()).is_some());
    // two terms at the top level
    let mut two = Tree::new();
    two.push(variable(0));
    two.push(variable(1));
    assert!(Expressand::new(two).is_none());
    // an open node
    let mut open = Tree::new();
    open.start_node(ExprKind::Add);
    assert!(Expressand::new(open).is_none());
    // a power of one operand
    let mut power = Tree::new();
    power.start_node(ExprKind::Pow);
    power.push(variable(0));
    power.finish_node();
    assert!(Expressand::new(power).is_none());
    // a logarithm of two
    let mut log = Tree::new();
    log.start_node(ExprKind::Ln);
    log.push(variable(0));
    log.push(variable(1));
    log.finish_node();
    assert!(Expressand::new(log).is_none());
    // a constant over zero
    let mut bad = Tree::new();
    bad.push(ExprKind::Const(Scalar { re: 1, im: 0, den: 0 }));
    assert!(Expressand::new(bad).is_none());
    // a root with an operand below the root
    let mut nested = Tree::new();
    nested.start_node(ExprKind::Root);
    nested.push(variable(0));
    nested.finish_node();
    assert!(Expressand::new(nested).is_none());
    // a variable with an operand
    let mut leaf = Tree::new();
    leaf.start_node(variable(0));
    leaf.push(variable(1));
    leaf.finish_node();
    assert!(Expressand::new(leaf).is_none());
    // sums and products of any length
    let mut empty_sum = Tree::new();
    empty_sum.start_node(ExprKind::Add);
    empty_sum.finish_node();
    let e = Expressand::new(empty_sum).unwrap();
    assert_eq!(e.kind(), ExprKind::Add);
    assert!(e.operands().is_empty());
}

#[test]
fn a_walk_depth_first_takes_the_last_child_first() {
    let tree = sample();
    let order: Vec<NodeId> = tree.elements(true).iter().map(|e| e.id()).collect();
    assert_eq!(
        order,
        vec![NodeId(0), NodeId(1), NodeId(5), NodeId(2), NodeId(4), NodeId(3)]
    );
    let mut walk = tree.iter_dfs();
    assert_eq!(walk.next(), Some(TreeElement::Node(NodeId(0))));
    assert_eq!(walk.next(), Some(TreeElement::Node(NodeId(1))));
    assert_eq!(walk.next(), Some(TreeElement::Leaf(LeafId(5))));
    assert_eq!(walk.next(), Some(TreeElement::Node(NodeId(2))));
    assert_eq!(walk.next(), Some(TreeElement::Leaf(LeafId(4))));
    assert_eq!(walk.next(), Some(TreeElement::Leaf(LeafId(3))));
    assert_eq!(walk.next(), None);
    assert_eq!(walk.next(), None);
    // a second walk starts over
    let mut again = tree.iter_dfs();
    assert_eq!(again.next(), Some(TreeElement::Node(NodeId(0))));
}

#[test]
fn a_walk_breadth_first_goes_level_by_level() {
    let tree = sample();
    let order: Vec<NodeId> = tree.elements(false).iter().map(|e| e.id()).collect();
    assert_eq!(
        order,
        vec![NodeId(0), NodeId(1), NodeId(2), NodeId(5), NodeId(3), NodeId(4)]
    );
    let mut walk = tree.node(NodeId(2)).iter_bfs(&tree);
    assert_eq!(walk.next(), Some(TreeElement::Node(NodeId(2))));
    assert_eq!(walk.next(), Some(TreeElement::Leaf(LeafId(3))));
    assert_eq!(walk.next(), Some(TreeElement::Leaf(LeafId(4))));
    assert_eq!(walk.next(), None);
    let mut below = tree.node(NodeId(1)).iter_dfs(&tree);
    assert_eq!(below.next(), Some(TreeElement::Node(NodeId(1))));
    assert_eq!(below.next(), Some(TreeElement::Leaf(LeafId(5))));
}

#[test]
fn elements_are_nodes_or_leaves() {
    let tree = sample();
    let children = tree.node(NodeId(1)).children_with_leaves(&tree);
    assert_eq!(
        children,
        vec![TreeElement::Node(NodeId(2)), TreeElement::Leaf(LeafId(5))]
    );
    assert_eq!(children[0].into_node(), Some(NodeId(2)));
    assert_eq!(children[0].into_leaf(), None);
    assert_eq!(children[1].into_leaf(), Some(LeafId(5)));
    assert_eq!(children[1].into_node(), None);
    let leaf = tree.leaf(LeafId(5));
    assert_eq!(leaf.kind(), variable(1));
    assert_eq!(leaf.id(), LeafId(5));
    assert_eq!(LeafId(4).get(&tree).kind(), constant(2));
    assert_eq!(LeafId(3).get_from_builder(&tree).id(), LeafId(3));
}

#[test]
fn siblings_follow_the_order_of_the_children() {
    let tree = sample();
    assert_eq!(tree.node(NodeId(2)).next(&tree), Some(NodeId(5)));
    assert_eq!(tree.node(NodeId(5)).next(&tree), None);
    assert_eq!(tree.node(NodeId(5)).prev(&tree), Some(NodeId(2)));
    assert_eq!(tree.node(NodeId(2)).prev(&tree), None);
    assert_eq!(tree.node(NodeId(3)).next(&tree), Some(NodeId(4)));
    assert_eq!(tree.node(NodeId(4)).prev(&tree), Some(NodeId(3)));
    assert_eq!(tree.node(NodeId(1)).next(&tree), None);
    assert_eq!(tree.node(NodeId(1)).prev(&tree), None);
    assert_eq!(tree.root().next(&tree), None);
    assert_eq!(tree.root().prev(&tree), None);
    let leaves: Vec<LeafId> = tree.node(NodeId(1)).leaves(&tree).iter().map(|l| l.id()).collect();
    assert_eq!(leaves, vec![LeafId(5)]);
    let below: Vec<LeafId> = tree.node(NodeId(2)).leaves(&tree).iter().map(|l| l.id()).collect();
    assert_eq!(below, vec![LeafId(3), LeafId(4)]);
    assert!(tree.root().leaves(&tree).is_empty());
}

#[test]
fn trees_and_expressions_are_copied_whole() {
    let tree = sample();
    let copy = tree.clone();
    assert_eq!(copy.len(), tree.len());
    assert_eq!(copy.node(NodeId(2)).children(), tree.node(NodeId(2)).children());
    let e = Expressand::new(tree).unwrap();
    let f = e.clone();
    assert_eq!(e.program(), f.program());
    assert_eq!(e.top(), NodeId(1));
    assert_eq!(f.tree().len(), 6);
    let part = e.subterm(NodeId(2));
    assert_eq!(part.kind(), ExprKind::Add);
    assert_eq!(part.operands().len(), 2);
    let built = Expressand::compose(
        ExprKind::Mul,
        vec![Expressand::variable(Var { id: 0 }), Expressand::integer(2), Expressand::leaf(constant(3))],
    );
    assert_eq!(built.operands()[1].kind(), constant(2));
    assert_eq!(Expressand::constant(Scalar::integer(4)).kind(), constant(4));
    let wrapped = Expression::from(built);
    assert_eq!(wrapped.ex().kind(), ExprKind::Mul);
}

#[test]
fn a_tree_without_a_term_is_the_expression_zero() {
    let empty = Expressand::new(Tree::new()).expect("the root alone is an expression");
    assert_eq!(empty.kind(), ExprKind::Root);
    assert_eq!(empty.top(), NodeId(0));
    assert_eq!(empty.tree().len(), 1);
    assert!(empty.operands().is_empty());
    assert_eq!(empty.program(), vec![Step::Sum(0)]);
    assert!(empty.bound_by(0));
    let derived = empty.diff(Var { id: 0 }).unwrap();
    assert_eq!(derived.kind(), constant(0));
    let same = empty.simplify().unwrap();
    assert_eq!(same.kind(), ExprKind::Root);
    assert_eq!(empty.clone().kind(), ExprKind::Root);
    let sys = System::new();
    assert_eq!(sys.str(&Expression::from(empty.clone())), "");
    // as an operand it stays one operand
    let sum = Expressand::compose(
        ExprKind::Add,
        vec![Expressand::variable(Var { id: 0 }), empty.clone(), Expressand::integer(2)],
    );
    assert_eq!(sum.operands().len(), 3);
    assert_eq!(sum.operands()[1].kind(), ExprKind::Root);
    assert_eq!(sum.program(), vec![Step::Var(0), Step::Sum(0), Step::Const(Scalar::integer(2)), Step::Sum(3)]);
    let simple = sum.simplify().unwrap();
    assert_eq!(simple.operands().len(), 3);
    // a root without operands below the root is the same expression
    let mut nested = Tree::new();
    nested.start_node(ExprKind::Root);
    nested.finish_node();
    let inner = Expressand::new(nested).expect("a root without operands");
    assert_eq!(inner.kind(), ExprKind::Root);
    assert_eq!(inner.top(), NodeId(1));
}

#[test]
fn a_node_opened_at_a_checkpoint_takes_over_what_came_since() {
    let mut tree = Tree::new();
    let at = tree.checkpoint();
    assert_eq!(tree.push(variable(0)), NodeId(1));
    assert_eq!(tree.push(variable(1)), NodeId(2));
    tree.start_node_at(at, ExprKind::Add);
    assert!(!tree.is_finished());
    assert_eq!(tree.finish_node(), NodeId(1));
    assert!(tree.is_finished());
    assert_eq!(tree.len(), 4);
    assert_eq!(tree.root().children(), &vec![NodeId(1)]);
    assert_eq!(tree.node(NodeId(1)).kind(), ExprKind::Add);
    assert_eq!(tree.node(NodeId(1)).parent(), NodeId(0));
    assert_eq!(tree.node(NodeId(1)).children(), &vec![NodeId(2), NodeId(3)]);
    assert_eq!(tree.node(NodeId(2)).kind(), variable(0));
    assert_eq!(tree.node(NodeId(3)).kind(), variable(1));
    for id in 0..4 {
        assert_eq!(tree.node(NodeId(id)).id(), NodeId(id));
    }
    assert_eq!(tree.node(NodeId(2)).parent(), NodeId(1));
    assert_eq!(tree.node(NodeId(3)).parent(), NodeId(1));
    let mut sys = System::new();
    sys.symbols("x y").unwrap();
    let e = Expression::from(Expressand::new(tree).expect("one sum"));
    assert_eq!(sys.str(&e), "(x+y)");
}

#[test]
fn a_checkpoint_keeps_the_children_before_it() {
    let mut tree = Tree::new();
    tree.start_node(ExprKind::Add);
    tree.push(variable(0));
    let at = tree.checkpoint();
    tree.start_node(ExprKind::Ln);
    tree.push(variable(1));
    tree.finish_node();
    tree.push(variable(2));
    tree.start_node_at(at, ExprKind::Mul);
    tree.push(constant(2));
    assert_eq!(tree.finish_node(), NodeId(3));
    assert_eq!(tree.finish_node(), NodeId(1));
    assert_eq!(tree.len(), 8);
    assert_eq!(tree.node(NodeId(1)).children(), &vec![NodeId(2), NodeId(3)]);
    assert_eq!(tree.node(NodeId(3)).kind(), ExprKind::Mul);
    assert_eq!(tree.node(NodeId(3)).parent(), NodeId(1));
    assert_eq!(tree.node(NodeId(3)).children(), &vec![NodeId(4), NodeId(6), NodeId(7)]);
    assert_eq!(tree.node(NodeId(4)).kind(), ExprKind::Ln);
    assert_eq!(tree.node(NodeId(4)).parent(), NodeId(3));
    assert_eq!(tree.node(NodeId(4)).children(), &vec![NodeId(5)]);
    assert_eq!(tree.node(NodeId(5)).kind(), variable(1));
    assert_eq!(tree.node(NodeId(5)).parent(), NodeId(4));
    assert_eq!(tree.node(NodeId(6)).kind(), variable(2));
    assert_eq!(tree.node(NodeId(6)).parent(), NodeId(3));
    assert_eq!(tree.node(NodeId(7)).kind(), constant(2));
    let mut sys = System::new();
    sys.symbols("x y z").unwrap();
    let e = Expression::from(Expressand::new(tree).expect("one sum"));
    assert_eq!(sys.str(&e), "(x+ ln(y)*z*2.000e0 )");
}

#[test]
fn a_checkpoint_with_nothing_behind_it_opens_a_node_as_usual() {
    let mut tree = Tree::new();
    tree.push(variable(0));
    let at = tree.checkpoint();
    tree.start_node_at(at, ExprKind::Exp);
    tree.push(variable(1));
    assert_eq!(tree.finish_node(), NodeId(2));
    let mut plain = Tree::new();
    plain.push(variable(0));
    plain.start_node(ExprKind::Exp);
    plain.push(variable(1));
    plain.finish_node();
    assert_eq!(tree.len(), plain.len());
    for id in 0..tree.len() {
        assert_eq!(tree.node(NodeId(id)).kind(), plain.node(NodeId(id)).kind());
        assert_eq!(tree.node(NodeId(id)).parent(), plain.node(NodeId(id)).parent());
        assert_eq!(tree.node(NodeId(id)).children(), plain.node(NodeId(id)).children());
    }
}

#[test]
fn a_checkpoint_serves_more_than_once() {
    // 1 + 2 + 3, read from the left: ((1+2)+3)
    let mut tree = Tree::new();
    let at = tree.checkpoint();
    tree.push(constant(1));
    tree.start_node_at(at, ExprKind::Add);
    tree.push(constant(2));
    tree.finish_node();
    tree.start_node_at(at, ExprKind::Add);
    tree.push(constant(3));
    assert_eq!(tree.finish_node(), NodeId(1));
    assert_eq!(tree.len(), 6);
    assert_eq!(tree.root().children(), &vec![NodeId(1)]);
    assert_eq!(tree.node(NodeId(1)).children(), &vec![NodeId(2), NodeId(5)]);
    assert_eq!(tree.node(NodeId(2)).kind(), ExprKind::Add);
    assert_eq!(tree.node(NodeId(2)).children(), &vec![NodeId(3), NodeId(4)]);
    assert_eq!(tree.node(NodeId(3)).kind(), constant(1));
    assert_eq!(tree.node(NodeId(4)).kind(), constant(2));
    assert_eq!(tree.node(NodeId(5)).kind(), constant(3));
    let sys = System::new();
    let e = Expression::from(Expressand::new(tree).expect("one sum"));
    assert_eq!(sys.str(&e), "((1.000e0+2.000e0)+3.000e0)");
    assert_eq!(sys.str(&e.simplify().unwrap()), "6.000e0");
}
