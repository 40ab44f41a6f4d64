//! Building the tree of a snapshot from a listing.

use crate::entry::is_vcs_entry;
use crate::entry::keeps;
use crate::entry::node_of;
use crate::listing::lemma_listing_views;
use crate::listing::listing_views;
use crate::listing::Listing;
use crate::listing::ListingView;
use crate::node::views;
use crate::node::NodeView;
use crate::node::TreeNode;
use crate::order::arrange;
use crate::order::lemma_arrange_ordered;
use crate::order::lemma_arrange_permutes;
use crate::order::ordered;
use crate::order::place;
use crate::order::precedes;
use crate::order::well_formed;
use crate::sort::sort_nodes;
use vstd::multiset::Multiset;
use vstd::prelude::*;

verus! {

/// The node of a listing, with all that stays of what it holds below it. The
/// listing's own verdict and name play no part: they decide only whether the
/// node appears among its siblings.
pub open spec fn subtree(listing: ListingView) -> NodeView
    decreases listing, 2nat,
{
    node_of(listing.entry, children_of(listing.contents))
}

/// The children that a directory has in the snapshot: the nodes of the
/// entries that stay, in display order. A directory without a listing has
/// none.
pub open spec fn children_of(contents: Option<Seq<ListingView>>) -> Seq<NodeView>
    decreases contents, 1nat,
{
    match contents {
        Some(listings) => arrange(kept_subtrees(listings)),
        None => Seq::empty(),
    }
}

/// The nodes of the entries that stay, in the order of the listing.
pub open spec fn kept_subtrees(listings: Seq<ListingView>) -> Seq<NodeView>
    decreases listings, 0nat,
{
    if listings.len() == 0 {
        Seq::empty()
    } else {
        let rest = kept_subtrees(listings.drop_last());
        let last = listings.last();
        if keeps(last.entry, last.ignored) {
            rest.push(subtree(last))
        } else {
            rest
        }
    }
}

/// A node occurs in a tree: it is the tree itself or occurs in one of its
/// children.
pub open spec fn occurs(tree: NodeView, node: NodeView) -> bool
    decreases tree,
{
    tree == node || exists|i: int|
        0 <= i < tree.children.len() && occurs(#[trigger] tree.children[i], node)
}

/// A listing stays below a root: a chain of listed directories leads from
/// the root down to it, and every entry on the chain below the root stays,
/// the listing itself included.
pub open spec fn stays_below(root: ListingView, listing: ListingView) -> bool
    decreases root,
{
    &&& root.entry.is_dir
    &&& root.contents matches Some(listings)
    &&& exists|i: int|
        0 <= i < listings.len() && keeps((#[trigger] listings[i]).entry, listings[i].ignored) && (
        listings[i] == listing || stays_below(listings[i], listing))
}

/// Each kept node stems from an entry of the listing that stays, and each
/// entry that stays has its node among them.
pub proof fn lemma_kept_subtrees(listings: Seq<ListingView>)
    ensures
        forall|j: int|
            0 <= j < kept_subtrees(listings).len() ==> exists|k: int|
                0 <= k < listings.len() && keeps((#[trigger] listings[k]).entry, listings[k].ignored)
                    && (#[trigger] kept_subtrees(listings)[j]) == subtree(listings[k]),
        forall|k: int|
            0 <= k < listings.len() && keeps((#[trigger] listings[k]).entry, listings[k].ignored)
                ==> kept_subtrees(listings).contains(subtree(listings[k])),
    decreases listings.len(),
{
    if listings.len() > 0 {
        let front = listings.drop_last();
        let last = listings.last();
        lemma_kept_subtrees(front);
        let kept = kept_subtrees(listings);
        assert forall|j: int| 0 <= j < kept.len() implies exists|k: int|
            0 <= k < listings.len() && keeps((#[trigger] listings[k]).entry, listings[k].ignored)
                && (#[trigger] kept[j]) == subtree(listings[k]) by {
            if j < kept_subtrees(front).len() {
                let k = choose|k: int|
                    0 <= k < front.len() && keeps((#[trigger] front[k]).entry, front[k].ignored)
                        && kept_subtrees(front)[j] == subtree(front[k]);
                assert(listings[k] == front[k]);
            } else {
                assert(listings[listings.len() - 1] == last);
            }
        }
        assert forall|k: int|
            0 <= k < listings.len() && keeps(
                (#[trigger] listings[k]).entry,
                listings[k].ignored,
            ) implies kept.contains(subtree(listings[k])) by {
            if k < front.len() {
                assert(front[k] == listings[k]);
                let j = choose|j: int|
                    0 <= j < kept_subtrees(front).len() && kept_subtrees(front)[j] == subtree(
                        front[k],
                    );
                assert(kept[j] == subtree(listings[k]));
            } else {
                assert(kept[kept.len() - 1] == subtree(listings[k]));
            }
        }
    }
}

/// The children of a listed directory are the nodes of its entries that
/// stay, no more and no fewer.
pub proof fn lemma_children_of(listings: Seq<ListingView>)
    ensures
        forall|j: int|
            0 <= j < children_of(Some(listings)).len() ==> exists|k: int|
                0 <= k < listings.len() && keeps((#[trigger] listings[k]).entry, listings[k].ignored)
                    && (#[trigger] children_of(Some(listings))[j]) == subtree(listings[k]),
        forall|k: int|
            0 <= k < listings.len() && keeps((#[trigger] listings[k]).entry, listings[k].ignored)
                ==> children_of(Some(listings)).contains(subtree(listings[k])),
{
    broadcast use vstd::seq_lib::group_to_multiset_ensures;

    let kept = kept_subtrees(listings);
    let children = children_of(Some(listings));
    lemma_kept_subtrees(listings);
    lemma_arrange_permutes(kept);
    assert forall|j: int| 0 <= j < children.len() implies exists|k: int|
        0 <= k < listings.len() && keeps((#[trigger] listings[k]).entry, listings[k].ignored)
            && (#[trigger] children[j]) == subtree(listings[k]) by {
        assert(children.to_multiset().count(children[j]) > 0);
        assert(kept.contains(children[j]));
        let i = choose|i: int| 0 <= i < kept.len() && kept[i] == children[j];
        let k = choose|k: int|
            0 <= k < listings.len() && keeps((#[trigger] listings[k]).entry, listings[k].ignored)
                && kept[i] == subtree(listings[k]);
        assert(children[j] == subtree(listings[k]));
    }
    assert forall|k: int|
        0 <= k < listings.len() && keeps(
            (#[trigger] listings[k]).entry,
            listings[k].ignored,
        ) implies children.contains(subtree(listings[k])) by {
        assert(kept.contains(subtree(listings[k])));
        assert(kept.to_multiset().count(subtree(listings[k])) > 0);
    }
}

/// In the tree of a listing every file is a leaf and the children of every
/// directory are in display order: directories before files, and each of the
/// two groups by label.
pub proof fn lemma_subtree_well_formed(listing: ListingView)
    ensures
        well_formed(subtree(listing)),
    decreases listing,
{
    let tree = subtree(listing);
    if listing.entry.is_dir {
        match listing.contents {
            Some(listings) => {
                let children = children_of(Some(listings));
                assert(tree.children == children);
                lemma_arrange_ordered(kept_subtrees(listings));
                lemma_children_of(listings);
                assert forall|i: int| 0 <= i < children.len() implies well_formed(
                    #[trigger] children[i],
                ) by {
                    let k = choose|k: int|
                        0 <= k < listings.len() && keeps(
                            (#[trigger] listings[k]).entry,
                            listings[k].ignored,
                        ) && children[i] == subtree(listings[k]);
                    lemma_subtree_well_formed(listings[k]);
                }
            },
            None => {},
        }
    }
}

/// Every node of a tree but its root stems from a listing that stays below
/// the root of the listing.
pub proof fn lemma_nodes_stem_from_listings(root: ListingView, node: NodeView)
    requires
        occurs(subtree(root), node),
    ensures
        node == subtree(root) || exists|listing: ListingView|
            stays_below(root, listing) && node == subtree(listing),
    decreases root,
{
    let tree = subtree(root);
    if node != tree {
        let i = choose|i: int|
            0 <= i < tree.children.len() && occurs(#[trigger] tree.children[i], node);
        let listings = root.contents->0;
        let children = children_of(Some(listings));
        assert(tree.children == children);
        lemma_children_of(listings);
        let k = choose|k: int|
            0 <= k < listings.len() && keeps((#[trigger] listings[k]).entry, listings[k].ignored)
                && children[i] == subtree(listings[k]);
        lemma_nodes_stem_from_listings(listings[k], node);
        if node == subtree(listings[k]) {
            assert(stays_below(root, listings[k]));
        } else {
            let below = choose|listing: ListingView|
                stays_below(listings[k], listing) && node == subtree(listing);
            assert(stays_below(root, below));
        }
    }
}

/// Every listing that stays below the root has its node in the tree.
pub proof fn lemma_listings_that_stay_occur(root: ListingView, listing: ListingView)
    requires
        stays_below(root, listing),
    ensures
        occurs(subtree(root), subtree(listing)),
    decreases root,
{
    let tree = subtree(root);
    let listings = root.contents->0;
    let children = children_of(Some(listings));
    assert(tree.children == children);
    lemma_children_of(listings);
    let k = choose|k: int|
        0 <= k < listings.len() && keeps((#[trigger] listings[k]).entry, listings[k].ignored) && (
        listings[k] == listing || stays_below(listings[k], listing));
    assert(children.contains(subtree(listings[k])));
    let i = choose|i: int| 0 <= i < children.len() && children[i] == subtree(listings[k]);
    if listings[k] != listing {
        lemma_listings_that_stay_occur(listings[k], listing);
    }
    assert(occurs(tree.children[i], subtree(listing)));
}

/// A listing that stays below the root is itself an entry that stays: the
/// filter does not ignore it and it is no directory named `.git`.
pub proof fn lemma_stays_below_is_kept(root: ListingView, listing: ListingView)
    requires
        stays_below(root, listing),
    ensures
        keeps(listing.entry, listing.ignored),
    decreases root,
{
    let listings = root.contents->0;
    let k = choose|k: int|
        0 <= k < listings.len() && keeps((#[trigger] listings[k]).entry, listings[k].ignored) && (
        listings[k] == listing || stays_below(listings[k], listing));
    if listings[k] != listing {
        lemma_stays_below_is_kept(listings[k], listing);
    }
}

/// No node comes from an ignored entry, nor from anything below one: every
/// node but the root is the node of a listing that the filter does not
/// ignore, reached from the root through directories that it does not ignore
/// either.
pub proof fn lemma_ignored_entries_leave_no_node(root: ListingView, node: NodeView)
    requires
        occurs(subtree(root), node),
    ensures
        node == subtree(root) || exists|listing: ListingView|
            stays_below(root, listing) && !listing.ignored && node == subtree(listing),
{
    lemma_nodes_stem_from_listings(root, node);
    if node != subtree(root) {
        let listing = choose|listing: ListingView|
            stays_below(root, listing) && node == subtree(listing);
        lemma_stays_below_is_kept(root, listing);
    }
}

/// No node comes from a directory named `.git`, nor from anything below
/// one, whatever the filter says of it: every node but the root is the node
/// of a listing that is no such directory, reached from the root through
/// directories of other names.
pub proof fn lemma_vcs_entries_leave_no_node(root: ListingView, node: NodeView)
    requires
        occurs(subtree(root), node),
    ensures
        node == subtree(root) || exists|listing: ListingView|
            stays_below(root, listing) && !is_vcs_entry(listing.entry) && node == subtree(
                listing,
            ),
{
    lemma_nodes_stem_from_listings(root, node);
    if node != subtree(root) {
        let listing = choose|listing: ListingView|
            stays_below(root, listing) && node == subtree(listing);
        lemma_stays_below_is_kept(root, listing);
    }
}

/// A directory that stays and could not be read is in the tree, as a
/// directory node without children.
pub proof fn lemma_unread_directory_stays_empty(root: ListingView, listing: ListingView)
    requires
        stays_below(root, listing),
        listing.entry.is_dir,
        listing.contents is None,
    ensures
        occurs(subtree(root), node_of(listing.entry, Seq::empty())),
        node_of(listing.entry, Seq::empty()).is_directory,
        node_of(listing.entry, Seq::empty()).children.len() == 0,
{
    lemma_listings_that_stay_occur(root, listing);
}

/// Two listings that are the same give the same tree: shape, labels and
/// order.
pub proof fn lemma_same_listing_same_tree(first: ListingView, second: ListingView)
    requires
        first == second,
    ensures
        subtree(first) == subtree(second),
{
}

/// The identifiers of the nodes of a tree, each as often as it occurs.
pub open spec fn ids_of(tree: NodeView) -> Multiset<Seq<char>>
    decreases tree, 1nat,
{
    ids_among(tree.children).insert(tree.id)
}

/// The identifiers of the nodes of a sequence of trees.
pub open spec fn ids_among(trees: Seq<NodeView>) -> Multiset<Seq<char>>
    decreases trees, 0nat,
{
    if trees.len() == 0 {
        Multiset::empty()
    } else {
        ids_among(trees.drop_last()).add(ids_of(trees.last()))
    }
}

/// The paths of the entries of a listing that have a node in its tree, each
/// as often as it occurs: that of the listing itself and, below a directory,
/// those of the entries that stay.
pub open spec fn paths_of(listing: ListingView) -> Multiset<Seq<char>>
    decreases listing, 2nat,
{
    if listing.entry.is_dir {
        paths_below(listing.contents).insert(listing.entry.path)
    } else {
        Multiset::singleton(listing.entry.path)
    }
}

/// The paths of the entries that have a node below a directory.
pub open spec fn paths_below(contents: Option<Seq<ListingView>>) -> Multiset<Seq<char>>
    decreases contents, 1nat,
{
    match contents {
        Some(listings) => paths_among(listings),
        None => Multiset::empty(),
    }
}

/// The paths of the entries that have a node, for the listings that stay.
pub open spec fn paths_among(listings: Seq<ListingView>) -> Multiset<Seq<char>>
    decreases listings, 0nat,
{
    if listings.len() == 0 {
        Multiset::empty()
    } else {
        let rest = paths_among(listings.drop_last());
        let last = listings.last();
        if keeps(last.entry, last.ignored) {
            rest.add(paths_of(last))
        } else {
            rest
        }
    }
}

/// Placing a tree among others adds its identifiers and no others.
pub proof fn lemma_ids_among_place(trees: Seq<NodeView>, tree: NodeView)
    ensures
        ids_among(place(trees, tree)) == ids_among(trees).add(ids_of(tree)),
    decreases trees.len(),
{
    if trees.len() == 0 || precedes(trees.last(), tree) {
        assert(trees.push(tree).drop_last() =~= trees);
    } else {
        let front = trees.drop_last();
        lemma_ids_among_place(front, tree);
        let placed = place(front, tree).push(trees.last());
        assert(placed.drop_last() =~= place(front, tree));
        assert(ids_among(placed) =~= ids_among(trees).add(ids_of(tree)));
    }
}

/// Arranging trees changes nothing about their identifiers.
pub proof fn lemma_ids_among_arrange(trees: Seq<NodeView>)
    ensures
        ids_among(arrange(trees)) == ids_among(trees),
    decreases trees.len(),
{
    if trees.len() > 0 {
        lemma_ids_among_arrange(trees.drop_last());
        lemma_ids_among_place(arrange(trees.drop_last()), trees.last());
    }
}

/// The identifiers of the nodes of a tree are the paths of the entries that
/// have a node in it, each as often. So the identifiers are unique in the
/// tree where those paths are unique in the listing.
pub proof fn lemma_ids_are_paths(listing: ListingView)
    ensures
        ids_of(subtree(listing)) == paths_of(listing),
    decreases listing, 1nat,
{
    if listing.entry.is_dir {
        match listing.contents {
            Some(listings) => {
                lemma_ids_among_arrange(kept_subtrees(listings));
                lemma_kept_ids_are_paths(listing, listings.len() as int);
                assert(listings.take(listings.len() as int) =~= listings);
            },
            None => {},
        }
    } else {
        assert(ids_of(subtree(listing)) =~= paths_of(listing));
    }
}

/// The same for the first `upto` entries of what a directory holds.
pub proof fn lemma_kept_ids_are_paths(listing: ListingView, upto: int)
    requires
        listing.contents is Some,
        0 <= upto <= listing.contents->0.len(),
    ensures
        ids_among(kept_subtrees(listing.contents->0.take(upto))) == paths_among(
            listing.contents->0.take(upto),
        ),
    decreases listing, 0nat, upto,
{
    let listings = listing.contents->0;
    if upto > 0 {
        let part = listings.take(upto);
        assert(part.drop_last() =~= listings.take(upto - 1));
        assert(part.last() == listings[upto - 1]);
        lemma_kept_ids_are_paths(listing, upto - 1);
        if keeps(part.last().entry, part.last().ignored) {
            lemma_ids_are_paths(listings[upto - 1]);
            let kept = kept_subtrees(part);
            assert(kept.drop_last() =~= kept_subtrees(part.drop_last()));
        }
    }
}

/// Builds the children of a directory from its listing: drops the entries
/// that do not stay, builds the node of each of the others and puts the
/// nodes in display order.
pub fn build_children(listings: &Vec<Listing>) -> (children: Vec<TreeNode>)
    ensures
        views(children@) == children_of(Some(listing_views(listings@))),
        ordered(views(children@)),
    decreases listings, 0nat,
{
    proof {
        lemma_arrange_ordered(kept_subtrees(listing_views(listings@)));
    }
    let mut nodes: Vec<TreeNode> = Vec::new();
    let mut i: usize = 0;
    while i < listings.len()
        invariant
            0 <= i <= listings.len(),
            views(nodes@) == kept_subtrees(listing_views(listings@.take(i as int))),
        decreases listings.len() - i,
    {
        let listing = &listings[i];
        proof {
            let front = listings@.take(i as int);
            let next = listings@.take(i + 1);
            assert(next.drop_last() =~= front);
            assert(next.last() == listings@[i as int]);
            lemma_listing_views(next);
            assert(listing_views(next).drop_last() =~= listing_views(front));
        }
        if listing.entry.is_kept(listing.ignored) {
            let ghost before = nodes@;
            let node = build_tree(listing);
            nodes.push(node);
            proof {
                assert(nodes@.drop_last() =~= before);
            }
        }
        i += 1;
    }
    proof {
        assert(listings@.take(listings.len() as int) =~= listings@);
    }
    sort_nodes(nodes)
}

/// Builds the tree of a listing: its node over the children that stay, each
/// built in the same way. The verdict on the listing itself is not consulted,
/// so the root of a snapshot is never filtered.
pub fn build_tree(root: &Listing) -> (tree: TreeNode)
    ensures
        tree@ == subtree(root@),
        well_formed(tree@),
    decreases root, 1nat,
{
    proof {
        lemma_subtree_well_formed(root@);
    }
    let children = match &root.contents {
        Some(listings) => build_children(listings),
        None => Vec::new(),
    };
    let label = root.entry.label();
    if root.entry.is_dir {
        TreeNode::directory(root.entry.path.clone(), label, children)
    } else {
        TreeNode::file(root.entry.path.clone(), label)
    }
}

/// One complete tree together with the root path it was built from. It
/// cannot be changed once made: a new build gives a new snapshot.
#[derive(Debug, PartialEq, Eq)]
pub struct Snapshot {
    root_path: String,
    tree: TreeNode,
}

/// What a snapshot is, as a mathematical value.
pub ghost struct SnapshotView {
    pub root_path: Seq<char>,
    pub tree: NodeView,
}

impl View for Snapshot {
    type V = SnapshotView;

    closed spec fn view(&self) -> SnapshotView {
        SnapshotView { root_path: self.root_path@, tree: self.tree@ }
    }
}

impl Snapshot {
    /// The snapshot of a finished tree, built from the given root path.
    pub fn new(root_path: String, tree: TreeNode) -> (snapshot: Snapshot)
        ensures
            snapshot@ == (SnapshotView { root_path: root_path@, tree: tree@ }),
    {
        Snapshot { root_path, tree }
    }

    /// Builds the snapshot of a listing: the tree of the listing, and the
    /// path of its root entry.
    pub fn of_listing(root: &Listing) -> (snapshot: Snapshot)
        ensures
            snapshot@ == (SnapshotView { root_path: root@.entry.path, tree: subtree(root@) }),
            well_formed(snapshot@.tree),
    {
        Snapshot { root_path: root.entry.path.clone(), tree: build_tree(root) }
    }

    /// The path that the snapshot was built from.
    pub fn root_path(&self) -> (root_path: &String)
        ensures
            root_path@ == self@.root_path,
    {
        &self.root_path
    }

    /// The tree of the snapshot.
    pub fn tree(&self) -> (tree: &TreeNode)
        ensures
            tree@ == self@.tree,
    {
        &self.tree
    }

    /// Gives up the snapshot for its tree.
    pub fn into_tree(self) -> (tree: TreeNode)
        ensures
            tree@ == self@.tree,
    {
        self.tree
    }
}

} // verus!
