//! The display order of sibling nodes: directories first, then by label.

use crate::node::NodeView;
use crate::node::TreeNode;
use vstd::prelude::*;
use vstd::std_specs::iter::IteratorSpec;

verus! {

/// Lexicographic order on labels, character by character in code-point
/// order: `a` comes no later than `b`.
pub open spec fn label_le(a: Seq<char>, b: Seq<char>) -> bool
    decreases a.len(),
{
    if a.len() == 0 {
        true
    } else if b.len() == 0 {
        false
    } else if a[0] != b[0] {
        a[0] < b[0]
    } else {
        label_le(a.drop_first(), b.drop_first())
    }
}

/// The order of siblings: a directory comes before a file, and two nodes of
/// one kind come in the order of their labels.
pub open spec fn precedes(a: NodeView, b: NodeView) -> bool {
    if a.is_directory != b.is_directory {
        a.is_directory
    } else {
        label_le(a.label, b.label)
    }
}

/// Two nodes that the order does not tell apart: same kind, same label.
pub open spec fn ties(a: NodeView, b: NodeView) -> bool {
    a.is_directory == b.is_directory && a.label == b.label
}

/// Every node of the sequence precedes all that follow it.
pub open spec fn ordered(nodes: Seq<NodeView>) -> bool {
    forall|i: int, j: int| 0 <= i < j < nodes.len() ==> precedes(nodes[i], nodes[j])
}

/// What holds of every tree of a snapshot: a file has no children, and the
/// children of every directory are in display order, all the way down.
pub open spec fn well_formed(tree: NodeView) -> bool
    decreases tree,
{
    &&& tree.is_directory || tree.children.len() == 0
    &&& ordered(tree.children)
    &&& forall|i: int|
        0 <= i < tree.children.len() ==> well_formed(#[trigger] tree.children[i])
}

/// Any two labels are comparable.
pub proof fn lemma_label_le_total(a: Seq<char>, b: Seq<char>)
    ensures
        label_le(a, b) || label_le(b, a),
    decreases a.len(),
{
    if a.len() > 0 && b.len() > 0 && a[0] == b[0] {
        lemma_label_le_total(a.drop_first(), b.drop_first());
    }
}

/// Label order is transitive.
pub proof fn lemma_label_le_transitive(a: Seq<char>, b: Seq<char>, c: Seq<char>)
    requires
        label_le(a, b),
        label_le(b, c),
    ensures
        label_le(a, c),
    decreases a.len(),
{
    if a.len() > 0 && b.len() > 0 && c.len() > 0 && a[0] == b[0] && b[0] == c[0] {
        lemma_label_le_transitive(a.drop_first(), b.drop_first(), c.drop_first());
    }
}

/// Labels that come no later than each other are the same label.
pub proof fn lemma_label_le_antisymmetric(a: Seq<char>, b: Seq<char>)
    requires
        label_le(a, b),
        label_le(b, a),
    ensures
        a == b,
    decreases a.len(),
{
    if a.len() > 0 && b.len() > 0 {
        lemma_label_le_antisymmetric(a.drop_first(), b.drop_first());
        assert(a =~= seq![a[0]] + a.drop_first());
        assert(b =~= seq![b[0]] + b.drop_first());
    } else {
        assert(a =~= b);
    }
}

/// A label comes no later than itself.
pub proof fn lemma_label_le_reflexive(a: Seq<char>)
    ensures
        label_le(a, a),
    decreases a.len(),
{
    if a.len() > 0 {
        lemma_label_le_reflexive(a.drop_first());
    }
}

/// Any two nodes are comparable.
pub proof fn lemma_precedes_total(a: NodeView, b: NodeView)
    ensures
        precedes(a, b) || precedes(b, a),
{
    lemma_label_le_total(a.label, b.label);
}

/// The order of siblings is transitive.
pub proof fn lemma_precedes_transitive(a: NodeView, b: NodeView, c: NodeView)
    requires
        precedes(a, b),
        precedes(b, c),
    ensures
        precedes(a, c),
{
    if a.is_directory == b.is_directory && b.is_directory == c.is_directory {
        lemma_label_le_transitive(a.label, b.label, c.label);
    }
}

/// Nodes that precede each other tie: they have the same kind and label.
pub proof fn lemma_precedes_both_ways(a: NodeView, b: NodeView)
    requires
        precedes(a, b),
        precedes(b, a),
    ensures
        ties(a, b),
{
    lemma_label_le_antisymmetric(a.label, b.label);
}

/// An ordered sequence with one more node put in its place: behind every
/// node that precedes it, ties included.
pub open spec fn place(nodes: Seq<NodeView>, node: NodeView) -> Seq<NodeView>
    decreases nodes.len(),
{
    if nodes.len() == 0 || precedes(nodes.last(), node) {
        nodes.push(node)
    } else {
        place(nodes.drop_last(), node).push(nodes.last())
    }
}

/// The nodes of a sequence in display order. Nodes that tie keep the order
/// in which they came.
pub open spec fn arrange(nodes: Seq<NodeView>) -> Seq<NodeView>
    decreases nodes.len(),
{
    if nodes.len() == 0 {
        nodes
    } else {
        place(arrange(nodes.drop_last()), nodes.last())
    }
}

/// `place` adds the node and nothing else.
pub proof fn lemma_place_permutes(nodes: Seq<NodeView>, node: NodeView)
    ensures
        place(nodes, node).to_multiset() == nodes.to_multiset().insert(node),
        place(nodes, node).len() == nodes.len() + 1,
    decreases nodes.len(),
{
    broadcast use vstd::seq_lib::group_to_multiset_ensures;

    if nodes.len() == 0 || precedes(nodes.last(), node) {
    } else {
        lemma_place_permutes(nodes.drop_last(), node);
        assert(nodes =~= nodes.drop_last().push(nodes.last()));
        assert(place(nodes, node).to_multiset() =~= nodes.to_multiset().insert(node));
    }
}

/// `place` keeps an ordered sequence ordered.
pub proof fn lemma_place_ordered(nodes: Seq<NodeView>, node: NodeView)
    requires
        ordered(nodes),
    ensures
        ordered(place(nodes, node)),
    decreases nodes.len(),
{
    let placed = place(nodes, node);
    if nodes.len() == 0 || precedes(nodes.last(), node) {
        assert forall|i: int, j: int| 0 <= i < j < placed.len() implies precedes(
            placed[i],
            placed[j],
        ) by {
            if j == nodes.len() && i < nodes.len() - 1 {
                lemma_precedes_transitive(nodes[i], nodes.last(), node);
            }
        }
    } else {
        let front = nodes.drop_last();
        lemma_place_ordered(front, node);
        lemma_place_permutes(front, node);
        lemma_precedes_total(nodes.last(), node);
        let inner = place(front, node);
        assert forall|i: int, j: int| 0 <= i < j < placed.len() implies precedes(
            placed[i],
            placed[j],
        ) by {
            if j == placed.len() - 1 {
                // placed[i] is the new node or a node of `front`
                broadcast use vstd::seq_lib::group_to_multiset_ensures;

                assert(inner.to_multiset().count(inner[i]) > 0);
                if inner[i] != node {
                    assert(front.to_multiset().count(inner[i]) > 0);
                    let k = choose|k: int| 0 <= k < front.len() && front[k] == inner[i];
                    assert(precedes(nodes[k], nodes[nodes.len() - 1]));
                }
            }
        }
    }
}

/// The arranged nodes are in display order.
pub proof fn lemma_arrange_ordered(nodes: Seq<NodeView>)
    ensures
        ordered(arrange(nodes)),
    decreases nodes.len(),
{
    if nodes.len() > 0 {
        lemma_arrange_ordered(nodes.drop_last());
        lemma_place_ordered(arrange(nodes.drop_last()), nodes.last());
    }
}

/// Arranging neither adds nor drops a node.
pub proof fn lemma_arrange_permutes(nodes: Seq<NodeView>)
    ensures
        arrange(nodes).to_multiset() == nodes.to_multiset(),
        arrange(nodes).len() == nodes.len(),
    decreases nodes.len(),
{
    broadcast use vstd::seq_lib::group_to_multiset_ensures;

    if nodes.len() > 0 {
        lemma_arrange_permutes(nodes.drop_last());
        lemma_place_permutes(arrange(nodes.drop_last()), nodes.last());
        assert(nodes =~= nodes.drop_last().push(nodes.last()));
    } else {
        assert(arrange(nodes) =~= nodes);
    }
}

/// `place` does not move a node past one that ties with it: among the nodes
/// that tie with any given one, the new node comes last.
pub proof fn lemma_place_stable(nodes: Seq<NodeView>, node: NodeView, like: NodeView)
    ensures
        place(nodes, node).filter(|n: NodeView| ties(n, like)) == nodes.push(node).filter(
            |n: NodeView| ties(n, like),
        ),
    decreases nodes.len(),
{
    let tied = |n: NodeView| ties(n, like);
    if nodes.len() == 0 || precedes(nodes.last(), node) {
    } else {
        let front = nodes.drop_last();
        let last = nodes.last();
        lemma_place_stable(front, node, like);
        place(front, node).lemma_filter_push(last, tied);
        front.lemma_filter_push(node, tied);
        front.lemma_filter_push(last, tied);
        nodes.lemma_filter_push(node, tied);
        assert(nodes =~= front.push(last));
        if tied(node) && tied(last) {
            lemma_label_le_reflexive(node.label);
            assert(precedes(last, node));
        }
    }
}

/// Stability: among the nodes that tie with any given one, arranging
/// changes nothing, so they keep the order in which they came.
pub proof fn lemma_arrange_stable(nodes: Seq<NodeView>, like: NodeView)
    ensures
        arrange(nodes).filter(|n: NodeView| ties(n, like)) == nodes.filter(
            |n: NodeView| ties(n, like),
        ),
    decreases nodes.len(),
{
    let tied = |n: NodeView| ties(n, like);
    if nodes.len() > 0 {
        let front = nodes.drop_last();
        lemma_arrange_stable(front, like);
        lemma_place_stable(arrange(front), nodes.last(), like);
        arrange(front).lemma_filter_push(nodes.last(), tied);
        front.lemma_filter_push(nodes.last(), tied);
        assert(nodes =~= front.push(nodes.last()));
    }
}

/// Nodes that are in display order already stay as they are.
pub proof fn lemma_arrange_ordered_input(nodes: Seq<NodeView>)
    requires
        ordered(nodes),
    ensures
        arrange(nodes) == nodes,
    decreases nodes.len(),
{
    if nodes.len() > 0 {
        let front = nodes.drop_last();
        assert forall|i: int, j: int| 0 <= i < j < front.len() implies precedes(
            front[i],
            front[j],
        ) by {
            assert(precedes(nodes[i], nodes[j]));
        }
        lemma_arrange_ordered_input(front);
        if front.len() > 0 {
            assert(precedes(nodes[front.len() - 1], nodes[nodes.len() - 1]));
        }
        assert(nodes =~= front.push(nodes.last()));
    }
}

/// What the order of siblings looks at: the kind and the label.
pub ghost struct SortKey {
    pub is_directory: bool,
    pub label: Seq<char>,
}

/// The key of a node.
pub open spec fn key_of(node: NodeView) -> SortKey {
    SortKey { is_directory: node.is_directory, label: node.label }
}

/// The order of siblings, told by their keys alone.
pub open spec fn key_precedes(a: SortKey, b: SortKey) -> bool {
    if a.is_directory != b.is_directory {
        a.is_directory
    } else {
        label_le(a.label, b.label)
    }
}

/// `place` for items of any kind that have a key.
pub open spec fn place_by<T>(items: Seq<T>, item: T, key: spec_fn(T) -> SortKey) -> Seq<T>
    decreases items.len(),
{
    if items.len() == 0 || key_precedes(key(items.last()), key(item)) {
        items.push(item)
    } else {
        place_by(items.drop_last(), item, key).push(items.last())
    }
}

/// `arrange` for items of any kind that have a key: the items in display
/// order, those that tie in the order in which they came.
pub open spec fn arrange_by<T>(items: Seq<T>, key: spec_fn(T) -> SortKey) -> Seq<T>
    decreases items.len(),
{
    if items.len() == 0 {
        items
    } else {
        place_by(arrange_by(items.drop_last(), key), items.last(), key)
    }
}

/// Placing the node of an item among the nodes of items is placing the item
/// among the items, where each node has the key of its item.
pub proof fn lemma_place_map<T>(
    items: Seq<T>,
    item: T,
    node: spec_fn(T) -> NodeView,
    key: spec_fn(T) -> SortKey,
)
    requires
        forall|x: T| key_of(#[trigger] node(x)) == key(x),
    ensures
        place(items.map_values(node), node(item)) == place_by(items, item, key).map_values(node),
    decreases items.len(),
{
    let nodes = items.map_values(node);
    if items.len() == 0 || key_precedes(key(items.last()), key(item)) {
        assert(key_of(node(item)) == key(item));
        if items.len() > 0 {
            assert(key_of(node(items.last())) == key(items.last()));
            assert(nodes.last() == node(items.last()));
        }
        assert(nodes.push(node(item)) =~= items.push(item).map_values(node));
    } else {
        assert(key_of(node(item)) == key(item));
        assert(key_of(node(items.last())) == key(items.last()));
        assert(nodes.last() == node(items.last()));
        lemma_place_map(items.drop_last(), item, node, key);
        assert(nodes.drop_last() =~= items.drop_last().map_values(node));
        assert(place_by(items.drop_last(), item, key).map_values(node).push(nodes.last())
            =~= place_by(items.drop_last(), item, key).push(items.last()).map_values(node));
    }
}

/// Arranging the nodes of items is arranging the items and taking their
/// nodes, where each node has the key of its item.
pub proof fn lemma_arrange_map<T>(
    items: Seq<T>,
    node: spec_fn(T) -> NodeView,
    key: spec_fn(T) -> SortKey,
)
    requires
        forall|x: T| key_of(#[trigger] node(x)) == key(x),
    ensures
        arrange(items.map_values(node)) == arrange_by(items, key).map_values(node),
    decreases items.len(),
{
    let nodes = items.map_values(node);
    if items.len() > 0 {
        lemma_arrange_map(items.drop_last(), node, key);
        assert(nodes.drop_last() =~= items.drop_last().map_values(node));
        assert(nodes.last() == node(items.last()));
        lemma_place_map(arrange_by(items.drop_last(), key), items.last(), node, key);
    } else {
        assert(nodes =~= arrange_by(items, key).map_values(node));
    }
}

/// `place_by` adds the item and nothing else.
pub proof fn lemma_place_by_permutes<T>(items: Seq<T>, item: T, key: spec_fn(T) -> SortKey)
    ensures
        place_by(items, item, key).to_multiset() == items.to_multiset().insert(item),
        place_by(items, item, key).len() == items.len() + 1,
    decreases items.len(),
{
    broadcast use vstd::seq_lib::group_to_multiset_ensures;

    if items.len() == 0 || key_precedes(key(items.last()), key(item)) {
    } else {
        lemma_place_by_permutes(items.drop_last(), item, key);
        assert(items =~= items.drop_last().push(items.last()));
        assert(place_by(items, item, key).to_multiset() =~= items.to_multiset().insert(item));
    }
}

/// `arrange_by` neither adds nor drops an item.
pub proof fn lemma_arrange_by_permutes<T>(items: Seq<T>, key: spec_fn(T) -> SortKey)
    ensures
        arrange_by(items, key).to_multiset() == items.to_multiset(),
        arrange_by(items, key).len() == items.len(),
        forall|i: int|
            0 <= i < items.len() ==> items.contains(#[trigger] arrange_by(items, key)[i]),
    decreases items.len(),
{
    broadcast use vstd::seq_lib::group_to_multiset_ensures;

    let arranged = arrange_by(items, key);
    if items.len() > 0 {
        lemma_arrange_by_permutes(items.drop_last(), key);
        lemma_place_by_permutes(arrange_by(items.drop_last(), key), items.last(), key);
        assert(items =~= items.drop_last().push(items.last()));
    } else {
        assert(arranged =~= items);
    }
    assert forall|i: int| 0 <= i < items.len() implies items.contains(#[trigger] arranged[i]) by {
        assert(arranged.to_multiset().count(arranged[i]) > 0);
    }
}

/// Compares two labels in code-point order.
pub fn label_comes_first(a: &str, b: &str) -> (first: bool)
    ensures
        first == label_le(a@, b@),
{
    let mut rest_a = a.chars();
    let mut rest_b = b.chars();
    let ghost mut left: nat = a@.len();
    loop
        invariant
            left == rest_a.remaining().len(),
            label_le(a@, b@) == label_le(rest_a.remaining(), rest_b.remaining()),
        decreases left,
    {
        let next_a = rest_a.next();
        let next_b = rest_b.next();
        proof {
            if left > 0 {
                left = (left - 1) as nat;
            }
        }
        match (next_a, next_b) {
            (None, _) => {
                return true;
            },
            (Some(_), None) => {
                return false;
            },
            (Some(x), Some(y)) => {
                if x != y {
                    return x < y;
                }
            },
        }
    }
}

/// Decides the order of two siblings.
pub fn comes_before(a: &TreeNode, b: &TreeNode) -> (before: bool)
    ensures
        before == precedes(a@, b@),
{
    if a.is_directory != b.is_directory {
        a.is_directory
    } else {
        label_comes_first(a.label.as_str(), b.label.as_str())
    }
}

} // verus!
