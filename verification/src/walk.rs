//! Walking a directory tree one listing at a time.
//!
//! The walk reads nothing itself. It names the directory whose listing it
//! awaits; whoever drives it reads that directory and supplies what it
//! holds. The walk drops the entries that do not stay, puts the others in
//! display order below the directory and turns to the next directory that
//! was not listed yet. A directory that does not stay is never asked for.

use crate::entry::entry_views;
use crate::entry::fresh_nodes;
use crate::entry::into_fresh_nodes;
use crate::entry::judged_views;
use crate::entry::node_of;
use crate::entry::select;
use crate::entry::staying;
use crate::entry::DirEntry;
use crate::entry::EntryView;
use crate::filter::all_relative;
use crate::filter::judge;
use crate::filter::judged_by;
use crate::node::lemma_views;
use crate::node::NodeView;
use crate::node::TreeNode;
use crate::order::arrange;
use crate::order::lemma_arrange_ordered;
use crate::order::lemma_arrange_permutes;
use crate::order::ordered;
use crate::order::precedes;
use crate::order::well_formed;
use crate::sort::sort_nodes;
use crate::trail::descend;
use crate::trail::leads;
use crate::trail::lemma_trail_push;
use crate::trail::lemma_trail_split;
use crate::trail::lemma_with_children_at;
use crate::trail::lemma_with_children_keeps_above;
use crate::trail::node_at;
use crate::trail::put_children;
use crate::trail::with_children_at;
use autocorrect::ignorer::Ignorer;
use vstd::prelude::*;

verus! {

/// Where the walk turns once the directory at the end of `trail` has its
/// listing: to its first child if that is a directory, else onward from
/// there.
pub open spec fn onward(tree: NodeView, trail: Seq<usize>) -> Option<Seq<usize>> {
    let here = node_at(tree, trail);
    if here.children.len() > 0 && here.children[0].is_directory {
        Some(trail.push(0))
    } else {
        next_beside(tree, trail)
    }
}

/// The next directory beside the node at the end of `trail`, or beside the
/// nearest node above it that has one: the sibling that follows, where it is
/// a directory. Directories come first among siblings, so behind a file
/// there is none.
pub open spec fn next_beside(tree: NodeView, trail: Seq<usize>) -> Option<Seq<usize>>
    decreases trail.len(),
{
    if trail.len() == 0 {
        None
    } else {
        let up = trail.drop_last();
        let siblings = node_at(tree, up).children;
        let next = trail.last() + 1;
        if next < siblings.len() && siblings[next].is_directory {
            Some(up.push(next as usize))
        } else {
            next_beside(tree, up)
        }
    }
}

/// What a walk is, as a mathematical value.
pub ghost struct WalkView {
    /// The tree as far as it is built.
    pub tree: NodeView,
    /// The trail to the directory whose listing the walk awaits, or `None`
    /// once no directory is left.
    pub awaited: Option<Seq<usize>>,
}

/// A walk as it starts at a root entry.
pub open spec fn started(root: EntryView) -> WalkView {
    WalkView {
        tree: node_of(root, Seq::empty()),
        awaited: if root.is_dir {
            Some(Seq::empty())
        } else {
            None
        },
    }
}

/// The walk after the awaited directory was listed and the given entries
/// stay: they become its children, in display order, and the walk turns to
/// the next directory. A walk that awaits nothing stays as it is.
pub open spec fn received(walk: WalkView, kept: Seq<EntryView>) -> WalkView {
    match walk.awaited {
        Some(trail) => {
            let tree = with_children_at(walk.tree, trail, arrange(fresh_nodes(kept)));
            WalkView { tree, awaited: onward(tree, trail) }
        },
        None => walk,
    }
}

/// Replacing the children below a directory keeps a tree well formed, where
/// the new children are in display order and well formed themselves.
pub proof fn lemma_with_children_well_formed(
    tree: NodeView,
    trail: Seq<usize>,
    children: Seq<NodeView>,
)
    requires
        well_formed(tree),
        leads(tree, trail),
        node_at(tree, trail).is_directory,
        ordered(children),
        forall|i: int| 0 <= i < children.len() ==> well_formed(#[trigger] children[i]),
    ensures
        well_formed(with_children_at(tree, trail, children)),
        with_children_at(tree, trail, children).is_directory == tree.is_directory,
        with_children_at(tree, trail, children).label == tree.label,
        with_children_at(tree, trail, children).id == tree.id,
    decreases trail.len(),
{
    if trail.len() > 0 {
        let at = trail[0] as int;
        let child = tree.children[at];
        let grown = with_children_at(child, trail.drop_first(), children);
        lemma_with_children_well_formed(child, trail.drop_first(), children);
        let after = tree.children.update(at, grown);
        assert forall|i: int, j: int| 0 <= i < j < after.len() implies precedes(
            after[i],
            after[j],
        ) by {
            assert(precedes(tree.children[i], tree.children[j]));
        }
        assert forall|i: int| 0 <= i < after.len() implies well_formed(#[trigger] after[i]) by {
            if i != at {
                assert(well_formed(tree.children[i]));
            }
        }
    }
}

/// Where a walk turns from a node on the way to the end of a trail does not
/// depend on the children at the end of the trail.
pub proof fn lemma_next_beside_above(
    tree: NodeView,
    trail: Seq<usize>,
    children: Seq<NodeView>,
    cut: int,
)
    requires
        leads(tree, trail),
        0 <= cut <= trail.len(),
    ensures
        next_beside(with_children_at(tree, trail, children), trail.take(cut)) == next_beside(
            tree,
            trail.take(cut),
        ),
    decreases cut,
{
    if cut > 0 {
        let part = trail.take(cut);
        assert(part.drop_last() =~= trail.take(cut - 1));
        lemma_trail_split(tree, trail, cut);
        lemma_trail_split(tree, part, cut - 1);
        assert(part.skip(cut - 1) =~= seq![part.last()]);
        assert(seq![part.last()][0] == part.last());
        lemma_with_children_keeps_above(tree, trail, children, cut - 1);
        lemma_next_beside_above(tree, trail, children, cut - 1);
    }
}

/// Nodes that were just listed are well formed, and stay so when arranged.
pub proof fn lemma_arranged_fresh_nodes(kept: Seq<EntryView>)
    ensures
        ordered(arrange(fresh_nodes(kept))),
        forall|i: int|
            0 <= i < arrange(fresh_nodes(kept)).len() ==> well_formed(
                #[trigger] arrange(fresh_nodes(kept))[i],
            ),
{
    broadcast use vstd::seq_lib::group_to_multiset_ensures;

    let fresh = fresh_nodes(kept);
    let arranged = arrange(fresh);
    lemma_arrange_ordered(fresh);
    lemma_arrange_permutes(fresh);
    assert forall|i: int| 0 <= i < arranged.len() implies well_formed(#[trigger] arranged[i]) by {
        assert(arranged.to_multiset().count(arranged[i]) > 0);
        assert(fresh.contains(arranged[i]));
        let k = choose|k: int| 0 <= k < fresh.len() && fresh[k] == arranged[i];
        assert(fresh[k] == node_of(kept[k], Seq::empty()));
    }
}

/// A walk over a directory tree.
pub struct TreeWalk {
    tree: TreeNode,
    trail: Vec<usize>,
    waiting: bool,
}

impl View for TreeWalk {
    type V = WalkView;

    closed spec fn view(&self) -> WalkView {
        WalkView {
            tree: self.tree@,
            awaited: if self.waiting {
                Some(self.trail@)
            } else {
                None
            },
        }
    }
}

impl TreeWalk {
    /// The tree so far is well formed, and the trail of the walk leads to a
    /// directory of it.
    pub open spec fn wf(&self) -> bool {
        &&& well_formed(self@.tree)
        &&& self@.awaited matches Some(trail) ==> leads(self@.tree, trail) && node_at(
            self@.tree,
            trail,
        ).is_directory
    }

    /// Starts a walk at the given root. The root is never filtered: its name
    /// and the filter play no part. Where it is a directory, its listing is
    /// the first that the walk awaits.
    pub fn new(root: DirEntry) -> (walk: TreeWalk)
        ensures
            walk.wf(),
            walk@ == started(root@),
    {
        let waiting = root.is_dir;
        let tree = root.into_node(Vec::new());
        let walk = TreeWalk { tree, trail: Vec::new(), waiting };
        assert(walk.trail@ =~= Seq::<usize>::empty());
        walk
    }

    /// The path of the directory whose listing the walk awaits, or `None`
    /// once the walk is over.
    pub fn awaited(&self) -> (path: Option<&String>)
        requires
            self.wf(),
        ensures
            match self@.awaited {
                Some(trail) => path is Some && path->0@ == node_at(self@.tree, trail).id,
                None => path is None,
            },
    {
        if self.waiting {
            proof {
                assert(self.trail@.take(self.trail@.len() as int) =~= self.trail@);
            }
            let node = descend(&self.tree, &self.trail, self.trail.len());
            Some(&node.id)
        } else {
            None
        }
    }

    /// Whether the walk is over: no directory is left to list.
    pub fn is_over(&self) -> (over: bool)
        ensures
            over == (self@.awaited is None),
    {
        !self.waiting
    }

    /// Takes the entries of the awaited directory that stay. They become its
    /// children, in display order, and the walk turns to the next directory.
    /// A walk that is over takes nothing.
    pub fn receive(&mut self, kept: Vec<DirEntry>)
        requires
            old(self).wf(),
        ensures
            final(self).wf(),
            final(self)@ == received(old(self)@, entry_views(kept@)),
    {
        if !self.waiting {
            return ;
        }
        let ghost trail = self.trail@;
        let ghost before = self.tree@;
        let ghost children = arrange(fresh_nodes(entry_views(kept@)));
        let nodes = sort_nodes(into_fresh_nodes(kept));
        let descends = nodes.len() > 0 && nodes[0].is_directory;
        proof {
            lemma_views(nodes@);
            lemma_arranged_fresh_nodes(entry_views(kept@));
            lemma_with_children_well_formed(before, trail, children);
            lemma_with_children_at(before, trail, children);
            assert(trail.skip(0) =~= trail);
        }
        put_children(&mut self.tree, &self.trail, 0, nodes);
        if descends {
            proof {
                lemma_trail_push(self.tree@, trail, 0);
            }
            self.trail.push(0);
        } else {
            self.turn_beside();
        }
    }

    /// Turns the walk to the next directory beside the node at the end of
    /// its trail, or ends it where there is none.
    fn turn_beside(&mut self)
        requires
            old(self).waiting,
            well_formed(old(self).tree@),
            leads(old(self).tree@, old(self).trail@),
        ensures
            final(self).wf(),
            final(self)@.tree == old(self)@.tree,
            final(self)@.awaited == next_beside(old(self).tree@, old(self).trail@),
    {
        while self.trail.len() > 0
            invariant
                self.waiting,
                self.tree == old(self).tree,
                well_formed(self.tree@),
                leads(self.tree@, self.trail@),
                next_beside(self.tree@, self.trail@) == next_beside(
                    old(self).tree@,
                    old(self).trail@,
                ),
            decreases self.trail.len(),
        {
            let ghost trail = self.trail@;
            let last = self.trail[self.trail.len() - 1];
            self.trail.pop();
            proof {
                assert(self.trail@ =~= trail.drop_last());
                assert(trail.take(trail.len() - 1) =~= trail.drop_last());
                assert(self.trail@.take(self.trail@.len() as int) =~= self.trail@);
                lemma_trail_split(self.tree@, trail, trail.len() - 1);
                assert(trail.skip(trail.len() - 1) =~= seq![last]);
                assert(seq![last].drop_first() =~= Seq::<usize>::empty());
                assert(leads(node_at(self.tree@, self.trail@), seq![last]));
            }
            let above = descend(&self.tree, &self.trail, self.trail.len());
            proof {
                lemma_views(above.children@);
                assert(seq![last][0] == last);
                assert(last < above@.children.len());
                assert(above@.children.len() == above.children@.len());
                assert(last < above.children.len());
            }
            if last + 1 < above.children.len() && above.children[last + 1].is_directory {
                proof {
                    lemma_trail_push(self.tree@, self.trail@, (last + 1) as usize);
                }
                self.trail.push(last + 1);
                return ;
            }
        }
        self.waiting = false;
    }

    /// Takes the listing of the awaited directory, each entry with the
    /// filter's verdict on it, or `None` where the directory could not be
    /// read: it then has no children. The entries that stay become its
    /// children and the walk turns to the next directory.
    pub fn supply_judged(&mut self, listing: Option<Vec<(DirEntry, bool)>>)
        requires
            old(self).wf(),
        ensures
            final(self).wf(),
            final(self)@ == received(
                old(self)@,
                match listing {
                    Some(judged) => staying(judged_views(judged@)),
                    None => Seq::empty(),
                },
            ),
    {
        match listing {
            Some(judged) => {
                self.receive(select(judged));
            },
            None => {
                let kept: Vec<DirEntry> = Vec::new();
                assert(entry_views(kept@) =~= Seq::<EntryView>::empty());
                self.receive(kept);
            },
        }
    }

    /// Takes the listing of the awaited directory, or `None` where the
    /// directory could not be read, and asks the rules about each entry.
    pub fn supply(&mut self, rules: &Ignorer, listing: Option<Vec<DirEntry>>)
        requires
            old(self).wf(),
            listing matches Some(entries) ==> all_relative(entries@),
        ensures
            final(self).wf(),
            final(self)@ == received(
                old(self)@,
                match listing {
                    Some(entries) => staying(judged_views(judged_by(*rules, entries@))),
                    None => Seq::empty(),
                },
            ),
    {
        match listing {
            Some(entries) => {
                let judged = judge(rules, entries);
                self.supply_judged(Some(judged));
            },
            None => {
                self.supply_judged(None);
            },
        }
    }

    /// Ends the walk and hands out the tree as far as it is built. Once the
    /// walk is over that is the whole tree.
    pub fn finish(self) -> (tree: TreeNode)
        requires
            self.wf(),
        ensures
            tree@ == self@.tree,
            well_formed(tree@),
    {
        self.tree
    }
}

} // verus!
