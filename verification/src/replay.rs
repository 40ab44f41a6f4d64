//! A walk that is answered from a listing ends with the tree of that
//! listing.

use crate::entry::fresh_nodes;
use crate::entry::keeps;
use crate::entry::label_of;
use crate::entry::node_of;
use crate::entry::staying;
use crate::entry::EntryView;
use crate::listing::lemma_listing_views;
use crate::listing::listing_views;
use crate::listing::Listing;
use crate::listing::ListingView;
use crate::node::NodeView;
use crate::order::arrange;
use crate::order::arrange_by;
use crate::order::key_of;
use crate::order::lemma_arrange_by_permutes;
use crate::order::lemma_arrange_map;
use crate::order::lemma_arrange_ordered;
use crate::order::precedes;
use crate::order::SortKey;
use crate::snapshot::kept_subtrees;
use crate::snapshot::subtree;
use crate::trail::leads;
use crate::trail::lemma_trail_push;
use crate::trail::lemma_with_children_at;
use crate::trail::lemma_with_children_below;
use crate::trail::node_at;
use crate::trail::with_children_at;
use crate::walk::lemma_next_beside_above;
use crate::walk::next_beside;
use crate::walk::received;
use crate::walk::started;
use crate::walk::WalkView;
use vstd::prelude::*;

verus! {

/// The listings of a directory that stay, in the order of the listing.
pub open spec fn staying_listings(listings: Seq<ListingView>) -> Seq<ListingView>
    decreases listings.len(),
{
    if listings.len() == 0 {
        Seq::empty()
    } else {
        let rest = staying_listings(listings.drop_last());
        if keeps(listings.last().entry, listings.last().ignored) {
            rest.push(listings.last())
        } else {
            rest
        }
    }
}

/// The entries of a listing with their verdicts, as a walk is supplied with
/// them.
pub open spec fn judged_entries(listings: Seq<ListingView>) -> Seq<(EntryView, bool)> {
    listings.map_values(|listing: ListingView| (listing.entry, listing.ignored))
}

/// The key of a listing: that of its node.
pub open spec fn listing_key(listing: ListingView) -> SortKey {
    SortKey { is_directory: listing.entry.is_dir, label: label_of(listing.entry.name) }
}

/// What lies directly below a listing in the tree: the listings that stay of
/// a directory that was read, in display order.
pub open spec fn below(listing: ListingView) -> Seq<ListingView> {
    if listing.entry.is_dir && listing.contents is Some {
        arrange_by(
            staying_listings(listing.contents->0),
            |inner: ListingView| listing_key(inner),
        )
    } else {
        Seq::empty()
    }
}

/// The listing that a trail in the tree leads to.
pub open spec fn listing_at(source: ListingView, trail: Seq<usize>) -> ListingView
    decreases trail.len(),
{
    if trail.len() == 0 {
        source
    } else {
        listing_at(below(source)[trail[0] as int], trail.drop_first())
    }
}

/// What a walk is supplied with for a listing: the entries that stay of
/// what the listing holds, and none where it holds no listing.
pub open spec fn held(listing: ListingView) -> Seq<EntryView> {
    match listing.contents {
        Some(listings) => staying(judged_entries(listings)),
        None => Seq::empty(),
    }
}

/// One step of a walk that is answered from `source`: the directory that the
/// walk awaits is supplied with what `source` holds for it.
pub open spec fn step(walk: WalkView, source: ListingView) -> WalkView {
    match walk.awaited {
        Some(trail) => received(walk, held(listing_at(source, trail))),
        None => walk,
    }
}

/// A number of steps of a walk that is answered from `source`.
pub open spec fn run(walk: WalkView, source: ListingView, steps: nat) -> WalkView
    decreases steps,
{
    if steps == 0 {
        walk
    } else {
        run(step(walk, source), source, (steps - 1) as nat)
    }
}

/// No directory of the listing holds more entries than can be counted.
pub open spec fn fits(listing: ListingView) -> bool
    decreases listing,
{
    listing.contents matches Some(listings) ==> listings.len() <= usize::MAX && forall|i: int|
        0 <= i < listings.len() ==> fits(#[trigger] listings[i])
}

/// Every listing that is held in memory fits.
pub proof fn lemma_listing_fits(listing: Listing)
    ensures
        fits(listing@),
    decreases listing,
{
    match listing.contents {
        Some(contents) => {
            lemma_listing_views(contents@);
            let inner = listing_views(contents@);
            assert(listing@.contents == Some(inner));
            assert(inner.len() == contents@.len());
            assert(contents@.len() == contents.len());
            assert forall|i: int| 0 <= i < inner.len() implies fits(#[trigger] inner[i]) by {
                lemma_listing_fits(contents@[i]);
                assert(inner[i] == contents@[i]@);
            }
        },
        None => {},
    }
}

/// The trees of a sequence of listings, one for one.
pub open spec fn trees_of(listings: Seq<ListingView>) -> Seq<NodeView> {
    listings.map_values(|listing: ListingView| subtree(listing))
}

/// The children below a directory while a walk is at work on it: the first
/// `done` are whole trees, the others nodes without children yet.
pub open spec fn partly_done(listings: Seq<ListingView>, done: int) -> Seq<NodeView> {
    Seq::new(
        listings.len(),
        |i: int|
            if i < done {
                subtree(listings[i])
            } else {
                node_of(listings[i].entry, Seq::empty())
            },
    )
}

/// The entries of a sequence of listings, one for one.
pub open spec fn entries_of(listings: Seq<ListingView>) -> Seq<EntryView> {
    listings.map_values(|listing: ListingView| listing.entry)
}

/// The listings that stay are listings of the directory, and their trees and
/// entries are what the tree and a walk take from it.
pub proof fn lemma_staying_listings(listings: Seq<ListingView>)
    ensures
        staying_listings(listings).len() <= listings.len(),
        forall|i: int|
            0 <= i < staying_listings(listings).len() ==> listings.contains(
                #[trigger] staying_listings(listings)[i],
            ),
        kept_subtrees(listings) == trees_of(staying_listings(listings)),
        staying(judged_entries(listings)) == entries_of(staying_listings(listings)),
        fresh_nodes(staying(judged_entries(listings))) == partly_done(
            staying_listings(listings),
            0,
        ),
    decreases listings.len(),
{
    let all = staying_listings(listings);
    if listings.len() > 0 {
        let front = listings.drop_last();
        let last = listings.last();
        lemma_staying_listings(front);
        assert forall|i: int| 0 <= i < all.len() implies listings.contains(#[trigger] all[i]) by {
            if i < staying_listings(front).len() {
                let k = choose|k: int| 0 <= k < front.len() && front[k] == staying_listings(
                    front,
                )[i];
                assert(listings[k] == all[i]);
            } else {
                assert(listings[listings.len() - 1] == all[i]);
            }
        }
        assert(judged_entries(listings).drop_last() =~= judged_entries(front));
        assert(judged_entries(listings).last() == (last.entry, last.ignored));
        assert(kept_subtrees(listings) =~= trees_of(all));
        assert(staying(judged_entries(listings)) =~= entries_of(all));
    } else {
        assert(kept_subtrees(listings) =~= trees_of(all));
        assert(judged_entries(listings) =~= Seq::empty());
        assert(staying(judged_entries(listings)) =~= entries_of(all));
    }
    assert(fresh_nodes(entries_of(all)) =~= partly_done(all, 0));
}

/// What lies below a directory in its tree are the trees of the listings
/// `below` it, and what a walk puts there first are their nodes without
/// children.
pub proof fn lemma_below(listing: ListingView)
    requires
        listing.entry.is_dir,
    ensures
        subtree(listing).children == trees_of(below(listing)),
        arrange(fresh_nodes(held(listing))) == partly_done(below(listing), 0),
        listing.contents matches Some(listings) ==> below(listing).len() <= listings.len()
            && forall|i: int|
            0 <= i < below(listing).len() ==> listings.contains(#[trigger] below(listing)[i]),
        listing.contents is None ==> below(listing).len() == 0,
{
    let under = below(listing);
    match listing.contents {
        Some(listings) => {
            let kept = staying_listings(listings);
            let by_key = |inner: ListingView| listing_key(inner);
            lemma_staying_listings(listings);
            lemma_arrange_by_permutes(kept, by_key);
            assert forall|i: int| 0 <= i < under.len() implies listings.contains(
                #[trigger] under[i],
            ) by {
                assert(kept.contains(under[i]));
                let k = choose|k: int| 0 <= k < kept.len() && kept[k] == under[i];
                assert(listings.contains(kept[k]));
            }
            let whole = |inner: ListingView| subtree(inner);
            assert forall|inner: ListingView| key_of(#[trigger] whole(inner)) == by_key(
                inner,
            ) by {}
            lemma_arrange_map(kept, whole, by_key);
            assert(kept.map_values(whole) =~= trees_of(kept));
            assert(under.map_values(whole) =~= trees_of(under));
            let bare = |inner: ListingView| node_of(inner.entry, Seq::empty());
            assert forall|inner: ListingView| key_of(#[trigger] bare(inner)) == by_key(inner) by {}
            lemma_arrange_map(kept, bare, by_key);
            assert(kept.map_values(bare) =~= partly_done(kept, 0));
            assert(under.map_values(bare) =~= partly_done(under, 0));
        },
        None => {
            assert(fresh_nodes(held(listing)) =~= Seq::empty());
            assert(trees_of(under) =~= Seq::empty());
            assert(partly_done(under, 0) =~= Seq::empty());
        },
    }
}

/// The listing at the end of a trail with one more step lies below the
/// listing at the end of the trail.
pub proof fn lemma_listing_at_push(source: ListingView, trail: Seq<usize>, step: usize)
    ensures
        listing_at(source, trail.push(step)) == below(listing_at(source, trail))[step as int],
    decreases trail.len(),
{
    let longer = trail.push(step);
    if trail.len() == 0 {
        assert(longer.drop_first() =~= Seq::<usize>::empty());
        assert(longer[0] == step);
        assert(listing_at(below(source)[step as int], longer.drop_first()) == below(
            source,
        )[step as int]);
    } else {
        lemma_listing_at_push(below(source)[trail[0] as int], trail.drop_first(), step);
        assert(longer.drop_first() =~= trail.drop_first().push(step));
        assert(longer[0] == trail[0]);
    }
}

/// Steps of a run add up.
pub proof fn lemma_run_add(walk: WalkView, source: ListingView, first: nat, then: nat)
    ensures
        run(walk, source, first + then) == run(run(walk, source, first), source, then),
    decreases first,
{
    if first > 0 {
        lemma_run_add(step(walk, source), source, (first - 1) as nat, then);
    }
}

/// A walk that awaits a directory and is answered from `source` comes, in
/// the number of steps handed back, to the tree with the whole tree of that
/// directory in its place, and then turns to the next directory beside it.
pub proof fn lemma_replay_directory(tree: NodeView, trail: Seq<usize>, source: ListingView) -> (steps:
    nat)
    requires
        leads(tree, trail),
        fits(listing_at(source, trail)),
        listing_at(source, trail).entry.is_dir,
        node_at(tree, trail) == node_of(listing_at(source, trail).entry, Seq::empty()),
    ensures
        run(WalkView { tree, awaited: Some(trail) }, source, steps) == (WalkView {
            tree: with_children_at(tree, trail, subtree(listing_at(source, trail)).children),
            awaited: next_beside(tree, trail),
        }),
    decreases listing_at(source, trail), 1nat, 0nat,
{
    let here = listing_at(source, trail);
    let under = below(here);
    let walk = WalkView { tree, awaited: Some(trail) };
    let children = partly_done(under, 0);
    let grown = with_children_at(tree, trail, children);
    lemma_below(here);
    lemma_with_children_at(tree, trail, children);
    assert(trail.take(trail.len() as int) =~= trail);
    lemma_next_beside_above(tree, trail, children, trail.len() as int);
    let first = step(walk, source);
    assert(first.tree == grown);
    assert(children.len() == under.len());
    if under.len() > 0 {
        assert(children[0].is_directory == under[0].entry.is_dir);
    }
    assert(first.awaited == if 0 < under.len() && under[0].entry.is_dir {
        Some(trail.push(0))
    } else {
        next_beside(tree, trail)
    });
    let rest = lemma_replay_children(tree, trail, source, 0);
    assert(run(walk, source, 1) == first) by {
        assert(run(first, source, 0) == first);
    }
    lemma_run_add(walk, source, 1, rest);
    1 + rest
}

/// A walk that is at work on a directory and has the first `done` of its
/// children whole comes, in the number of steps handed back, to the whole
/// tree of the directory.
pub proof fn lemma_replay_children(
    tree: NodeView,
    trail: Seq<usize>,
    source: ListingView,
    done: int,
) -> (steps: nat)
    requires
        leads(tree, trail),
        fits(listing_at(source, trail)),
        listing_at(source, trail).entry.is_dir,
        0 <= done <= below(listing_at(source, trail)).len(),
    ensures
        run(
            WalkView {
                tree: with_children_at(
                    tree,
                    trail,
                    partly_done(below(listing_at(source, trail)), done),
                ),
                awaited: if done < below(listing_at(source, trail)).len() && below(
                    listing_at(source, trail),
                )[done].entry.is_dir {
                    Some(trail.push(done as usize))
                } else {
                    next_beside(tree, trail)
                },
            },
            source,
            steps,
        ) == (WalkView {
            tree: with_children_at(tree, trail, subtree(listing_at(source, trail)).children),
            awaited: next_beside(tree, trail),
        }),
    decreases listing_at(source, trail), 0nat, below(listing_at(source, trail)).len() - done,
{
    let here = listing_at(source, trail);
    let under = below(here);
    let mixed = partly_done(under, done);
    let current = with_children_at(tree, trail, mixed);
    lemma_below(here);
    if done < under.len() && under[done].entry.is_dir {
        let listings = here.contents->0;
        let at = done as usize;
        let deeper = trail.push(at);
        let child = under[done];
        assert(listings.contains(child));
        let k = choose|k: int| 0 <= k < listings.len() && listings[k] == child;
        assert(fits(listings[k]));
        lemma_with_children_at(tree, trail, mixed);
        lemma_trail_push(current, trail, at);
        lemma_listing_at_push(source, trail, at);
        assert(listing_at(source, deeper) == listings[k]);
        let inner = lemma_replay_directory(current, deeper, source);
        let after = WalkView {
            tree: with_children_at(current, deeper, subtree(child).children),
            awaited: next_beside(current, deeper),
        };
        lemma_with_children_below(tree, trail, mixed, at, subtree(child).children);
        assert(mixed.update(done, NodeView { children: subtree(child).children, ..mixed[done] })
            =~= partly_done(under, done + 1));
        assert(deeper.drop_last() =~= trail);
        assert(trail.take(trail.len() as int) =~= trail);
        lemma_next_beside_above(tree, trail, mixed, trail.len() as int);
        if done + 1 < under.len() {
            assert(mixed[done + 1].is_directory == under[done + 1].entry.is_dir);
        }
        assert(after.awaited == if done + 1 < under.len() && under[done + 1].entry.is_dir {
            Some(trail.push((done + 1) as usize))
        } else {
            next_beside(tree, trail)
        });
        let rest = lemma_replay_children(tree, trail, source, done + 1);
        let start = WalkView { tree: current, awaited: Some(deeper) };
        lemma_run_add(start, source, inner, rest);
        inner + rest
    } else {
        let bare = partly_done(under, 0);
        lemma_arrange_ordered(fresh_nodes(held(here)));
        assert forall|i: int| done <= i < under.len() implies !under[i].entry.is_dir by {
            if i > done {
                assert(precedes(bare[done], bare[i]));
            }
        }
        assert(mixed =~= trees_of(under));
        0
    }
}

/// A walk that starts at the root of a listing and is answered from the
/// listing ends, in the number of steps handed back, with the tree of the
/// listing and awaits nothing more.
pub proof fn lemma_walk_replays(source: ListingView) -> (steps: nat)
    requires
        fits(source),
    ensures
        run(started(source.entry), source, steps) == (WalkView {
            tree: subtree(source),
            awaited: None,
        }),
{
    let empty = Seq::<usize>::empty();
    let tree = node_of(source.entry, Seq::empty());
    if source.entry.is_dir {
        let steps = lemma_replay_directory(tree, empty, source);
        steps
    } else {
        0
    }
}

} // verus!
