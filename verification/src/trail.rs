//! Trails: paths of child indices from the root of a tree down to a node.

use crate::node::lemma_views;
use crate::node::views;
use crate::node::NodeView;
use crate::node::TreeNode;
use vstd::prelude::*;

verus! {

/// The trail leads to a node of the tree: each index picks a child that is
/// there.
pub open spec fn leads(tree: NodeView, trail: Seq<usize>) -> bool
    decreases trail.len(),
{
    trail.len() == 0 || (trail[0] < tree.children.len() && leads(
        tree.children[trail[0] as int],
        trail.drop_first(),
    ))
}

/// The node at the end of a trail.
pub open spec fn node_at(tree: NodeView, trail: Seq<usize>) -> NodeView
    decreases trail.len(),
{
    if trail.len() == 0 {
        tree
    } else {
        node_at(tree.children[trail[0] as int], trail.drop_first())
    }
}

/// The tree with the children of the node at the end of a trail replaced.
pub open spec fn with_children_at(
    tree: NodeView,
    trail: Seq<usize>,
    children: Seq<NodeView>,
) -> NodeView
    decreases trail.len(),
{
    if trail.len() == 0 {
        NodeView { children, ..tree }
    } else {
        NodeView {
            children: tree.children.update(
                trail[0] as int,
                with_children_at(tree.children[trail[0] as int], trail.drop_first(), children),
            ),
            ..tree
        }
    }
}

/// A trail that leads somewhere still does so when cut short, and going on
/// from the node at the cut by the rest of the trail ends at the same node.
pub proof fn lemma_trail_split(tree: NodeView, trail: Seq<usize>, cut: int)
    requires
        leads(tree, trail),
        0 <= cut <= trail.len(),
    ensures
        leads(tree, trail.take(cut)),
        leads(node_at(tree, trail.take(cut)), trail.skip(cut)),
        node_at(node_at(tree, trail.take(cut)), trail.skip(cut)) == node_at(tree, trail),
    decreases cut,
{
    if cut == 0 {
        assert(trail.take(0) =~= Seq::<usize>::empty());
        assert(trail.skip(0) =~= trail);
    } else {
        let child = tree.children[trail[0] as int];
        lemma_trail_split(child, trail.drop_first(), cut - 1);
        assert(trail.take(cut).drop_first() =~= trail.drop_first().take(cut - 1));
        assert(trail.drop_first().skip(cut - 1) =~= trail.skip(cut));
    }
}

/// A trail with one more step leads somewhere when the trail does and the
/// step picks a child of the node at its end.
pub proof fn lemma_trail_push(tree: NodeView, trail: Seq<usize>, step: usize)
    requires
        leads(tree, trail),
        step < node_at(tree, trail).children.len(),
    ensures
        leads(tree, trail.push(step)),
        node_at(tree, trail.push(step)) == node_at(tree, trail).children[step as int],
    decreases trail.len(),
{
    let longer = trail.push(step);
    if trail.len() == 0 {
        let child = tree.children[step as int];
        assert(longer.drop_first() =~= Seq::<usize>::empty());
        assert(longer[0] == step);
        assert(leads(child, longer.drop_first()));
        assert(node_at(child, longer.drop_first()) == child);
    } else {
        lemma_trail_push(tree.children[trail[0] as int], trail.drop_first(), step);
        assert(longer.drop_first() =~= trail.drop_first().push(step));
        assert(longer[0] == trail[0]);
    }
}

/// Replacing the children at the end of a trail leaves every shorter trail
/// where it led, changes nothing at its nodes but what lies below, and puts
/// the new children at the end of the trail.
pub proof fn lemma_with_children_at(tree: NodeView, trail: Seq<usize>, children: Seq<NodeView>)
    requires
        leads(tree, trail),
    ensures
        leads(with_children_at(tree, trail, children), trail),
        node_at(with_children_at(tree, trail, children), trail) == (NodeView {
            children,
            ..node_at(tree, trail)
        }),
    decreases trail.len(),
{
    if trail.len() > 0 {
        lemma_with_children_at(tree.children[trail[0] as int], trail.drop_first(), children);
    }
}

/// Replacing the children at the end of a trail, and then those of one of
/// the new children, is replacing the former once, with that child over its
/// own new children.
pub proof fn lemma_with_children_below(
    tree: NodeView,
    trail: Seq<usize>,
    children: Seq<NodeView>,
    step: usize,
    below: Seq<NodeView>,
)
    requires
        leads(tree, trail),
        step < children.len(),
    ensures
        with_children_at(with_children_at(tree, trail, children), trail.push(step), below)
            == with_children_at(
            tree,
            trail,
            children.update(step as int, NodeView { children: below, ..children[step as int] }),
        ),
    decreases trail.len(),
{
    let longer = trail.push(step);
    let first = with_children_at(tree, trail, children);
    if trail.len() == 0 {
        assert(longer.drop_first() =~= Seq::<usize>::empty());
        assert(longer[0] == step);
        assert(with_children_at(children[step as int], longer.drop_first(), below) == (NodeView {
            children: below,
            ..children[step as int]
        }));
    } else {
        let at = trail[0] as int;
        let rest = trail.drop_first();
        lemma_with_children_below(tree.children[at], rest, children, step, below);
        assert(longer.drop_first() =~= rest.push(step));
        assert(longer[0] == trail[0]);
        let grown = with_children_at(tree.children[at], rest, children);
        assert(first.children[at] == grown);
        assert(first.children.update(at, with_children_at(grown, rest.push(step), below))
            =~= tree.children.update(at, with_children_at(grown, rest.push(step), below)));
    }
}

/// Replacing the children at the end of a trail changes neither the number
/// nor the kind of the children of any node on the way there.
pub proof fn lemma_with_children_keeps_above(
    tree: NodeView,
    trail: Seq<usize>,
    children: Seq<NodeView>,
    cut: int,
)
    requires
        leads(tree, trail),
        0 <= cut < trail.len(),
    ensures
        node_at(with_children_at(tree, trail, children), trail.take(cut)).children.len()
            == node_at(tree, trail.take(cut)).children.len(),
        forall|i: int|
            0 <= i < node_at(tree, trail.take(cut)).children.len() ==> (#[trigger] node_at(
                with_children_at(tree, trail, children),
                trail.take(cut),
            ).children[i]).is_directory == node_at(tree, trail.take(cut)).children[i].is_directory,
    decreases cut,
{
    let at = trail[0] as int;
    let rest = trail.drop_first();
    let grown = with_children_at(tree.children[at], rest, children);
    if cut == 0 {
        assert(trail.take(0) =~= Seq::<usize>::empty());
    } else {
        lemma_with_children_keeps_above(tree.children[at], rest, children, cut - 1);
        assert(trail.take(cut).drop_first() =~= rest.take(cut - 1));
        assert(trail.take(cut)[0] == trail[0]);
    }
}

/// The node at the end of the first `upto` steps of a trail.
pub fn descend<'a>(tree: &'a TreeNode, trail: &Vec<usize>, upto: usize) -> (node: &'a TreeNode)
    requires
        upto <= trail.len(),
        leads(tree@, trail@.take(upto as int)),
    ensures
        node@ == node_at(tree@, trail@.take(upto as int)),
{
    let mut node: &TreeNode = tree;
    let mut depth: usize = 0;
    while depth < upto
        invariant
            0 <= depth <= upto <= trail.len(),
            leads(tree@, trail@.take(upto as int)),
            leads(node@, trail@.subrange(depth as int, upto as int)),
            node_at(node@, trail@.subrange(depth as int, upto as int)) == node_at(
                tree@,
                trail@.take(upto as int),
            ),
        decreases upto - depth,
    {
        let step = trail[depth];
        proof {
            let rest = trail@.subrange(depth as int, upto as int);
            assert(rest[0] == step);
            assert(rest.drop_first() =~= trail@.subrange(depth + 1, upto as int));
            lemma_views(node.children@);
        }
        node = &node.children[step];
        depth += 1;
    }
    proof {
        assert(trail@.subrange(upto as int, upto as int) =~= Seq::<usize>::empty());
    }
    node
}

/// Replaces the children of the node at the end of a trail, from the given
/// depth of the trail on.
pub fn put_children(node: &mut TreeNode, trail: &Vec<usize>, depth: usize, children: Vec<TreeNode>)
    requires
        depth <= trail.len(),
        leads(old(node)@, trail@.skip(depth as int)),
    ensures
        final(node)@ == with_children_at(
            old(node)@,
            trail@.skip(depth as int),
            views(children@),
        ),
    decreases trail.len() - depth,
{
    if depth == trail.len() {
        node.children = children;
    } else {
        let step = trail[depth];
        proof {
            lemma_views(node.children@);
            assert(trail@.skip(depth as int)[0] == step);
            assert(trail@.skip(depth as int).drop_first() =~= trail@.skip(depth + 1));
        }
        let ghost before = node.children@;
        put_children(&mut node.children[step], trail, depth + 1, children);
        proof {
            lemma_views(node.children@);
            assert(views(node.children@) =~= views(before).update(
                step as int,
                node.children@[step as int]@,
            ));
        }
    }
}

} // verus!
