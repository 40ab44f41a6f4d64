//! What is known of a directory tree once it was read: its entries, the
//! filter's verdict on each, and the listing of each directory that could be
//! read.

use crate::entry::DirEntry;
use crate::entry::EntryView;
use vstd::prelude::*;

verus! {

/// An entry together with what was found out about it.
#[derive(Debug, PartialEq, Eq)]
pub struct Listing {
    /// The entry itself.
    pub entry: DirEntry,
    /// The filter's verdict on the entry's relative path.
    pub ignored: bool,
    /// The entries of a directory, in the order in which they were read.
    /// `None` for a file, for a directory that could not be read, and for one
    /// that was not read at all.
    pub contents: Option<Vec<Listing>>,
}

/// What a listing is, as a mathematical value.
pub ghost struct ListingView {
    pub entry: EntryView,
    pub ignored: bool,
    pub contents: Option<Seq<ListingView>>,
}

/// The views of a sequence of listings, in the same order.
pub open spec fn listing_views(listings: Seq<Listing>) -> Seq<ListingView>
    decreases listings, 0nat,
{
    if listings.len() == 0 {
        Seq::empty()
    } else {
        listing_views(listings.drop_last()).push(listing_view(listings.last()))
    }
}

/// The view of one listing: its entry, its verdict and the views of what it
/// holds.
pub open spec fn listing_view(listing: Listing) -> ListingView
    decreases listing, 1nat,
{
    ListingView {
        entry: listing.entry@,
        ignored: listing.ignored,
        contents: match listing.contents {
            Some(contents) => Some(listing_views(contents@)),
            None => None,
        },
    }
}

impl View for Listing {
    type V = ListingView;

    open spec fn view(&self) -> ListingView {
        listing_view(*self)
    }
}

/// `listing_views` keeps the length and takes the view of each listing in
/// place.
pub proof fn lemma_listing_views(listings: Seq<Listing>)
    ensures
        listing_views(listings).len() == listings.len(),
        forall|i: int|
            0 <= i < listings.len() ==> (#[trigger] listing_views(listings)[i]) == listings[i]@,
    decreases listings.len(),
{
    if listings.len() > 0 {
        lemma_listing_views(listings.drop_last());
    }
}

impl Listing {
    /// The listing of a file.
    pub fn file(entry: DirEntry, ignored: bool) -> (listing: Listing)
        ensures
            listing@ == (ListingView { entry: entry@, ignored, contents: None }),
    {
        Listing { entry, ignored, contents: None }
    }

    /// The listing of a directory: `contents` holds what reading it gave, or
    /// `None` where it could not be read.
    pub fn directory(entry: DirEntry, ignored: bool, contents: Option<Vec<Listing>>) -> (listing:
        Listing)
        ensures
            listing@ == (ListingView {
                entry: entry@,
                ignored,
                contents: match contents {
                    Some(contents) => Some(listing_views(contents@)),
                    None => None,
                },
            }),
    {
        Listing { entry, ignored, contents }
    }
}

} // verus!
