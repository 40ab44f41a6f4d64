//! Directory entries as plain values, and what becomes of each in a snapshot.

use crate::node::lemma_views;
use crate::node::views;
use crate::node::NodeView;
use crate::node::TreeNode;
use vstd::prelude::*;
use vstd::std_specs::iter::IteratorSpec;

verus! {

/// One entry of a directory listing.
#[derive(Clone, Debug, PartialEq, Eq)]
pub struct DirEntry {
    /// The path of the entry. It becomes the identifier of its node.
    pub path: String,
    /// The path of the entry relative to the root of the snapshot. The
    /// filter is asked about this path.
    pub relative_path: String,
    /// The base name of the entry, where it is valid text.
    pub name: Option<String>,
    /// Whether the entry is a directory, links followed.
    pub is_dir: bool,
}

/// What a directory entry is, as a mathematical value.
pub ghost struct EntryView {
    pub path: Seq<char>,
    pub relative_path: Seq<char>,
    pub name: Option<Seq<char>>,
    pub is_dir: bool,
}

impl View for DirEntry {
    type V = EntryView;

    open spec fn view(&self) -> EntryView {
        EntryView {
            path: self.path@,
            relative_path: self.relative_path@,
            name: match self.name {
                Some(name) => Some(name@),
                None => None,
            },
            is_dir: self.is_dir,
        }
    }
}

/// The label of an entry whose name is not valid text.
pub open spec fn placeholder_label() -> Seq<char> {
    "Unknown"@
}

/// The name of the directory in which version control keeps its own data.
pub open spec fn vcs_name() -> Seq<char> {
    ".git"@
}

/// The label of an entry: its name, or the placeholder where it has none.
pub open spec fn label_of(name: Option<Seq<char>>) -> Seq<char> {
    match name {
        Some(name) => name,
        None => placeholder_label(),
    }
}

/// Whether an entry is a directory of version-control data: a directory
/// named `.git`. A file of that name is a file like any other.
pub open spec fn is_vcs_entry(entry: EntryView) -> bool {
    entry.is_dir && entry.name == Some(vcs_name())
}

/// Whether an entry stays in the snapshot, given the filter's verdict on it.
/// An entry that the filter ignores leaves, and so does a directory of
/// version-control data whatever the filter says.
pub open spec fn keeps(entry: EntryView, ignored: bool) -> bool {
    !ignored && !is_vcs_entry(entry)
}

/// The node that stands for an entry, over the given children. A file has
/// no children, whatever is given.
pub open spec fn node_of(entry: EntryView, children: Seq<NodeView>) -> NodeView {
    NodeView {
        id: entry.path,
        label: label_of(entry.name),
        is_directory: entry.is_dir,
        children: if entry.is_dir {
            children
        } else {
            Seq::empty()
        },
    }
}

/// The views of the entries of a listing with their verdicts, one for one.
pub open spec fn judged_views(judged: Seq<(DirEntry, bool)>) -> Seq<(EntryView, bool)> {
    judged.map_values(|pair: (DirEntry, bool)| (pair.0@, pair.1))
}

/// The views of a sequence of entries, one for one.
pub open spec fn entry_views(entries: Seq<DirEntry>) -> Seq<EntryView> {
    entries.map_values(|entry: DirEntry| entry@)
}

/// The entries of a listing that stay, in the order of the listing.
pub open spec fn staying(judged: Seq<(EntryView, bool)>) -> Seq<EntryView>
    decreases judged.len(),
{
    if judged.len() == 0 {
        Seq::empty()
    } else {
        let rest = staying(judged.drop_last());
        if keeps(judged.last().0, judged.last().1) {
            rest.push(judged.last().0)
        } else {
            rest
        }
    }
}

/// The nodes of entries that were just listed: each over no children yet.
pub open spec fn fresh_nodes(entries: Seq<EntryView>) -> Seq<NodeView> {
    entries.map_values(|entry: EntryView| node_of(entry, Seq::empty()))
}

/// Whether two texts are the same, character by character.
pub fn same_text(a: &str, b: &str) -> (same: bool)
    ensures
        same == (a@ == b@),
{
    let mut rest_a = a.chars();
    let mut rest_b = b.chars();
    let ghost mut done: int = 0;
    loop
        invariant
            0 <= done <= a@.len(),
            done <= b@.len(),
            rest_a.remaining() == a@.skip(done),
            rest_b.remaining() == b@.skip(done),
            a@.take(done) == b@.take(done),
        decreases a@.len() - done,
    {
        let next_a = rest_a.next();
        let next_b = rest_b.next();
        match (next_a, next_b) {
            (None, None) => {
                proof {
                    assert(a@.take(done) =~= a@);
                    assert(b@.take(done) =~= b@);
                }
                return true;
            },
            (Some(x), Some(y)) => {
                if x != y {
                    return false;
                }
                proof {
                    assert(a@.skip(done).drop_first() =~= a@.skip(done + 1));
                    assert(b@.skip(done).drop_first() =~= b@.skip(done + 1));
                    assert(a@.take(done + 1) =~= a@.take(done).push(x));
                    assert(b@.take(done + 1) =~= b@.take(done).push(y));
                    done = done + 1;
                }
            },
            _ => {
                return false;
            },
        }
    }
}

impl DirEntry {
    /// The label of the entry's node: its name, or `Unknown` where the name
    /// is not valid text.
    pub fn label(&self) -> (label: String)
        ensures
            label@ == label_of(self@.name),
    {
        match &self.name {
            Some(name) => name.clone(),
            None => "Unknown".to_owned(),
        }
    }

    /// Whether the entry is a directory named `.git`.
    pub fn is_vcs(&self) -> (vcs: bool)
        ensures
            vcs == is_vcs_entry(self@),
    {
        match &self.name {
            Some(name) => self.is_dir && same_text(name.as_str(), ".git"),
            None => false,
        }
    }

    /// Whether the entry stays in the snapshot, given the filter's verdict
    /// on its relative path.
    pub fn is_kept(&self, ignored: bool) -> (kept: bool)
        ensures
            kept == keeps(self@, ignored),
    {
        !ignored && !self.is_vcs()
    }

    /// The node of the entry over the given children. For a file the
    /// children are dropped.
    pub fn into_node(self, children: Vec<TreeNode>) -> (node: TreeNode)
        ensures
            node@ == node_of(self@, views(children@)),
    {
        let label = self.label();
        if self.is_dir {
            TreeNode::directory(self.path, label, children)
        } else {
            TreeNode::file(self.path, label)
        }
    }
}

/// Drops from a listing the entries that do not stay, given the filter's
/// verdict on each. The others keep their order.
pub fn select(judged: Vec<(DirEntry, bool)>) -> (kept: Vec<DirEntry>)
    ensures
        entry_views(kept@) == staying(judged_views(judged@)),
{
    let ghost given = judged@;
    let mut kept: Vec<DirEntry> = Vec::new();
    for pair in iter: judged
        invariant
            iter.seq() == given,
            entry_views(kept@) == staying(judged_views(given.take(iter.index() as int))),
    {
        proof {
            let k = iter.index() as int;
            assert(given.take(k + 1).drop_last() =~= given.take(k));
            assert(judged_views(given.take(k + 1)).drop_last() =~= judged_views(given.take(k)));
        }
        let (entry, ignored) = pair;
        if entry.is_kept(ignored) {
            let ghost before = kept@;
            kept.push(entry);
            proof {
                assert(entry_views(kept@) =~= entry_views(before).push(entry@));
            }
        }
    }
    proof {
        assert(given.take(given.len() as int) =~= given);
    }
    kept
}

/// Turns the entries of a listing into nodes, each over no children yet.
pub fn into_fresh_nodes(entries: Vec<DirEntry>) -> (nodes: Vec<TreeNode>)
    ensures
        views(nodes@) == fresh_nodes(entry_views(entries@)),
{
    let ghost given = entries@;
    let mut nodes: Vec<TreeNode> = Vec::new();
    for entry in iter: entries
        invariant
            iter.seq() == given,
            nodes@.len() == iter.index(),
            forall|j: int|
                0 <= j < nodes@.len() ==> (#[trigger] nodes@[j])@ == node_of(
                    given[j]@,
                    Seq::empty(),
                ),
    {
        let node = entry.into_node(Vec::new());
        nodes.push(node);
    }
    proof {
        lemma_views(nodes@);
        assert(views(nodes@) =~= fresh_nodes(entry_views(given)));
    }
    nodes
}

} // verus!
