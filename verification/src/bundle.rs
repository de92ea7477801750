//! The data model: a bundle of Workshop item identifiers, optionally anchored
//! to a Workshop collection with included/excluded deltas.

use vstd::prelude::*;

use crate::timefmt::TS_MAX;

verus! {

/// Anchor of a bundle to a Workshop collection.
#[derive(Debug)]
pub struct BundleCollectionLink {
    /// Workshop item id of the collection.
    pub id: u64,
    /// Items in both the bundle's raw list and the collection's membership.
    pub included: Vec<u64>,
    /// Items in the collection's membership that the user has dropped.
    pub excluded: Vec<u64>,
}

/// Mathematical shape of a collection link.
pub struct CollectionLinkView {
    pub id: u64,
    pub included: Seq<u64>,
    pub excluded: Seq<u64>,
}

impl View for BundleCollectionLink {
    type V = CollectionLinkView;

    open spec fn view(&self) -> CollectionLinkView {
        CollectionLinkView { id: self.id, included: self.included@, excluded: self.excluded@ }
    }
}

/// A named, user-assembled set of Workshop items. When `collection` is
/// present, `items` holds only the manually added extras; otherwise it is the
/// whole membership.
#[derive(Debug)]
pub struct Bundle {
    pub id: u16,
    pub name: String,
    /// Seconds since the Unix epoch, UTC.
    pub updated: i64,
    pub collection: Option<BundleCollectionLink>,
    pub items: Vec<u64>,
}

/// Mathematical shape of a bundle.
pub struct BundleView {
    pub id: u16,
    pub name: Seq<char>,
    pub updated: i64,
    pub collection: Option<CollectionLinkView>,
    pub items: Seq<u64>,
}

impl View for Bundle {
    type V = BundleView;

    open spec fn view(&self) -> BundleView {
        BundleView {
            id: self.id,
            name: self.name@,
            updated: self.updated,
            collection: match self.collection {
                Some(c) => Some(c@),
                None => None,
            },
            items: self.items@,
        }
    }
}

impl BundleView {
    /// The update instant can be written in the text form, which carries
    /// years 0 through 9999 only.
    pub open spec fn updated_in_range(self) -> bool {
        0 <= self.updated <= TS_MAX
    }

    /// Items of the bundle's collection delta, empty without a collection.
    pub open spec fn include_items(self) -> Seq<u64> {
        match self.collection {
            Some(c) => c.included,
            None => Seq::empty(),
        }
    }
}

} // verus!
