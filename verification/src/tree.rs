//! The bounding-volume tree that prunes candidates by envelope.

use crate::cell::{entries, NumberedCell};
use crate::geometry::{envelopes_meet, Geometry};
use rstar::primitives::{GeomWithData, Rectangle};
use rstar::{RTree, RTreeObject};
use vstd::prelude::*;

verus! {

/// A bulk-loaded R-tree over the envelopes of cells. Each entry holds the
/// envelope of a cell and the cell's identity, by which the cell is found
/// again.
///
/// The tree is an `rstar::RTree`, which cannot be declared to the verifier
/// as it is bounded by traits of its crate, so the struct is hidden from it.
#[verifier::external_body]
#[derive(Debug)]
pub struct EnvelopeTree {
    tree: RTree<GeomWithData<Rectangle<geo::Point>, usize>>,
}

/// The cells that a tree indexes, as their identities and polygons, in the
/// order in which they were loaded. This is a model: a leaf of the tree
/// holds the identity and the envelope of its cell, and the contracts read
/// the polygon through its envelope only and the order not at all.
pub uninterp spec fn tree_entries(tree: EnvelopeTree) -> Seq<(usize, Geometry)>;

/// The identities of the entries whose envelope intersects that of `query`,
/// in the order of the entries.
pub open spec fn hits(entries: Seq<(usize, Geometry)>, query: Geometry) -> Seq<usize>
    decreases entries.len(),
{
    if entries.len() == 0 {
        Seq::empty()
    } else {
        let rest = hits(entries.drop_last(), query);
        if envelopes_meet(entries.last().1, query) {
            rest.push(entries.last().0)
        } else {
            rest
        }
    }
}

impl EnvelopeTree {
    /// A tree without entries.
    ///
    /// Calls `RTree::new`.
    #[verifier::external_body]
    pub(crate) fn new() -> (tree: EnvelopeTree)
        ensures
            tree_entries(tree) == Seq::<(usize, Geometry)>::empty(),
    {
        EnvelopeTree { tree: RTree::new() }
    }

    /// A tree over the envelopes of `cells`, built in one bulk load.
    ///
    /// Calls `RTree::bulk_load_with_params` on one rectangle per cell, made
    /// from the cell's cached envelope and tagged with the cell's identity.
    /// Trusted: the tree indexes exactly the cells given. The load orders
    /// the envelopes by their corners and panics where a corner is a NaN. A
    /// polygon whose coordinates are all finite has finite corners; so has
    /// one without an exterior ring, whose envelope spans the plane.
    #[verifier::external_body]
    pub(crate) fn load(cells: &Vec<NumberedCell>) -> (tree: EnvelopeTree)
        requires
            forall|i: int| 0 <= i < cells@.len() ==> (#[trigger] cells@[i]@).1.indexable(),
        ensures
            tree_entries(tree) == entries(cells@),
    {
        let tagged = |cell: &NumberedCell|
            GeomWithData::new(Rectangle::from_aabb(cell.geometry.shape.envelope()), cell.index);
        EnvelopeTree { tree: RTree::bulk_load_with_params(cells.iter().map(tagged).collect()) }
    }

    /// The number of entries.
    ///
    /// Calls `RTree::size`.
    #[verifier::external_body]
    pub(crate) fn size(&self) -> (size: usize)
        ensures
            size == tree_entries(*self).len(),
    {
        self.tree.size()
    }

    /// The identities of all entries whose envelope intersects the envelope
    /// of `query`, in no particular order.
    ///
    /// Calls `RTree::locate_in_envelope_intersecting` and picks the identity
    /// of each entry that it yields. Trusted: the search yields every entry
    /// whose envelope intersects the given one, each once, and no other.
    #[verifier::external_body]
    pub(crate) fn locate(&self, query: &Geometry) -> (found: Vec<usize>)
        ensures
            found@.to_multiset() == hits(tree_entries(*self), *query).to_multiset(),
    {
        let envelope = query.shape.envelope();
        self.tree.locate_in_envelope_intersecting(&envelope).map(|entry| entry.data).collect()
    }
}

} // verus!
