//! Sorting sibling nodes into display order.

use crate::node::lemma_views;
use crate::node::views;
use crate::node::NodeView;
use crate::node::TreeNode;
use crate::order::arrange;
use crate::order::comes_before;
use crate::order::lemma_precedes_total;
use crate::order::lemma_precedes_transitive;
use crate::order::place;
use crate::order::precedes;
use vstd::prelude::*;

verus! {

/// Two sequences run into one, from the back: the later of the two last
/// nodes comes last, and where they tie that of the second sequence.
pub open spec fn merged(first: Seq<NodeView>, second: Seq<NodeView>) -> Seq<NodeView>
    decreases first.len() + second.len(),
{
    if first.len() == 0 {
        second
    } else if second.len() == 0 {
        first
    } else if precedes(first.last(), second.last()) {
        merged(first, second.drop_last()).push(second.last())
    } else {
        merged(first.drop_last(), second).push(first.last())
    }
}

/// Placing a node into two sequences run into one is placing it into the
/// second and running the two into one.
pub proof fn lemma_place_merged(first: Seq<NodeView>, second: Seq<NodeView>, node: NodeView)
    ensures
        place(merged(first, second), node) == merged(first, place(second, node)),
    decreases first.len() + second.len(),
{
    let both = merged(first, second);
    let placed = place(second, node);
    if first.len() == 0 {
        assert(both == second);
        assert(merged(first, placed) == placed);
    } else if second.len() == 0 {
        assert(both == first);
        assert(placed == second.push(node));
        assert(placed.drop_last() =~= second);
        assert(placed.last() == node);
        if precedes(first.last(), node) {
            assert(merged(first, placed) == merged(first, second).push(node));
        } else {
            let front = first.drop_last();
            lemma_place_merged(front, second, node);
            assert(merged(front, second) =~= front);
            assert(merged(first, placed) == merged(front, placed).push(first.last()));
        }
    } else if precedes(second.last(), node) {
        assert(placed == second.push(node));
        assert(placed.drop_last() =~= second);
        assert(placed.last() == node);
        if precedes(first.last(), node) {
            assert(merged(first, placed) == both.push(node));
            assert(both.len() > 0 && (both.last() == first.last() || both.last()
                == second.last()));
        } else {
            let front = first.drop_last();
            lemma_place_merged(front, second, node);
            assert(merged(first, placed) == merged(front, placed).push(first.last()));
            if precedes(first.last(), second.last()) {
                lemma_precedes_transitive(first.last(), second.last(), node);
            }
            assert(both == merged(front, second).push(first.last()));
            assert(both.drop_last() =~= merged(front, second));
            assert(both.last() == first.last());
        }
    } else {
        let inner = place(second.drop_last(), node);
        assert(placed == inner.push(second.last()));
        assert(placed.drop_last() =~= inner);
        assert(placed.last() == second.last());
        if precedes(first.last(), second.last()) {
            lemma_place_merged(first, second.drop_last(), node);
            let lower = merged(first, second.drop_last());
            assert(both == lower.push(second.last()));
            assert(both.drop_last() =~= lower);
            assert(both.last() == second.last());
            assert(merged(first, placed) == merged(first, inner).push(second.last()));
        } else {
            let front = first.drop_last();
            lemma_place_merged(front, second, node);
            lemma_precedes_total(first.last(), second.last());
            if precedes(first.last(), node) {
                lemma_precedes_transitive(second.last(), first.last(), node);
            }
            let lower = merged(front, second);
            assert(both == lower.push(first.last()));
            assert(both.drop_last() =~= lower);
            assert(both.last() == first.last());
            assert(merged(first, placed) == merged(front, placed).push(first.last()));
        }
    }
}

/// Arranging two sequences one after the other is arranging each and running
/// the two into one.
pub proof fn lemma_arrange_parts(first: Seq<NodeView>, second: Seq<NodeView>)
    ensures
        arrange(first + second) == merged(arrange(first), arrange(second)),
    decreases second.len(),
{
    if second.len() == 0 {
        assert(first + second =~= first);
        assert(arrange(second) =~= Seq::<NodeView>::empty());
    } else {
        let whole = first + second;
        assert(whole.drop_last() =~= first + second.drop_last());
        assert(whole.last() == second.last());
        lemma_arrange_parts(first, second.drop_last());
        lemma_place_merged(arrange(first), arrange(second.drop_last()), second.last());
    }
}

/// The views of a sequence with one more node.
proof fn lemma_views_push(nodes: Seq<TreeNode>, node: TreeNode)
    ensures
        views(nodes.push(node)) == views(nodes).push(node@),
{
    assert(nodes.push(node).drop_last() =~= nodes);
}

/// The views of a sequence without its last node.
proof fn lemma_views_drop_last(nodes: Seq<TreeNode>)
    requires
        nodes.len() > 0,
    ensures
        views(nodes.drop_last()) == views(nodes).drop_last(),
        views(nodes).last() == nodes.last()@,
        views(nodes).len() > 0,
{
    assert(views(nodes).drop_last() =~= views(nodes.drop_last()));
}

/// A sequence with one more node, turned round, begins with that node.
proof fn lemma_reverse_push(nodes: Seq<NodeView>, node: NodeView)
    ensures
        nodes.push(node).reverse() == seq![node] + nodes.reverse(),
{
    assert(nodes.push(node).reverse() =~= seq![node] + nodes.reverse());
}

/// Moves the nodes of `tail` behind those of `all`, the last of them first.
fn append_turned(all: Vec<TreeNode>, tail: Vec<TreeNode>) -> (joined: Vec<TreeNode>)
    ensures
        views(joined@) == views(all@) + views(tail@).reverse(),
{
    let ghost goal = views(all@) + views(tail@).reverse();
    let mut all = all;
    let mut tail = tail;
    while tail.len() > 0
        invariant
            goal == views(all@) + views(tail@).reverse(),
        decreases tail.len(),
    {
        let ghost before_all = all@;
        let ghost before_tail = tail@;
        match tail.pop() {
            Some(node) => {
                all.push(node);
                proof {
                    assert(tail@ =~= before_tail.drop_last());
                    assert(before_tail =~= tail@.push(node));
                    lemma_views_push(tail@, node);
                    lemma_views_push(before_all, node);
                    lemma_reverse_push(views(tail@), node@);
                    assert(goal =~= views(all@) + views(tail@).reverse());
                }
            },
            None => {},
        }
    }
    proof {
        assert(views(tail@) =~= Seq::<NodeView>::empty());
        assert(goal =~= views(all@));
    }
    all
}

/// Runs two sequences of nodes into one, as `merged` says.
fn merge_nodes(first: Vec<TreeNode>, second: Vec<TreeNode>) -> (all: Vec<TreeNode>)
    ensures
        views(all@) == merged(views(first@), views(second@)),
{
    let ghost goal = merged(views(first@), views(second@));
    let mut first = first;
    let mut second = second;
    // the nodes that come last, the last of them first
    let mut tail: Vec<TreeNode> = Vec::new();
    proof {
        assert(views(tail@).reverse() =~= Seq::<NodeView>::empty());
        assert(goal =~= goal + views(tail@).reverse());
    }
    while first.len() > 0 && second.len() > 0
        invariant
            goal == merged(views(first@), views(second@)) + views(tail@).reverse(),
        decreases first.len() + second.len(),
    {
        let ghost before_first = first@;
        let ghost before_second = second@;
        let ghost before_tail = tail@;
        proof {
            lemma_views_drop_last(before_first);
            lemma_views_drop_last(before_second);
        }
        let takes_second = comes_before(&first[first.len() - 1], &second[second.len() - 1]);
        let last = if takes_second {
            second.pop()
        } else {
            first.pop()
        };
        match last {
            Some(node) => {
                tail.push(node);
                proof {
                    lemma_views_push(before_tail, node);
                    lemma_reverse_push(views(before_tail), node@);
                    let lower = merged(views(first@), views(second@));
                    assert(first@ =~= if takes_second {
                        before_first
                    } else {
                        before_first.drop_last()
                    });
                    assert(second@ =~= if takes_second {
                        before_second.drop_last()
                    } else {
                        before_second
                    });
                    assert(merged(views(before_first), views(before_second)) == lower.push(
                        node@,
                    ));
                    assert(goal =~= lower + views(tail@).reverse());
                }
            },
            None => {},
        }
    }
    proof {
        if first.len() == 0 {
            assert(views(first@).len() == 0);
        } else {
            lemma_views_drop_last(first@);
            assert(views(second@).len() == 0);
        }
    }
    let rest = if first.len() > 0 {
        first
    } else {
        second
    };
    append_turned(rest, tail)
}

/// Puts sibling nodes in display order: directories first, then files, each
/// group by label. Nodes of one kind and label keep their order.
pub fn sort_nodes(nodes: Vec<TreeNode>) -> (sorted: Vec<TreeNode>)
    ensures
        views(sorted@) == arrange(views(nodes@)),
    decreases nodes.len(),
{
    if nodes.len() <= 1 {
        proof {
            lemma_views(nodes@);
            let given = views(nodes@);
            if given.len() == 1 {
                assert(arrange(given.drop_last()) =~= Seq::<NodeView>::empty());
                assert(given =~= Seq::<NodeView>::empty().push(given.last()));
            }
        }
        return nodes;
    }
    let ghost given = nodes@;
    let mut first = nodes;
    let half = first.len() / 2;
    let second = first.split_off(half);
    proof {
        lemma_views(given);
        lemma_views(first@);
        lemma_views(second@);
        assert(views(given) =~= views(first@) + views(second@));
        lemma_arrange_parts(views(first@), views(second@));
    }
    let first = sort_nodes(first);
    let second = sort_nodes(second);
    merge_nodes(first, second)
}

} // verus!
