//! The cells of the index: a polygon with its identity.

use crate::geometry::Geometry;
use vstd::prelude::*;

verus! {

/// An indexed cell: a polygon, which carries its bounding envelope, and the
/// identity under which matches report it.
#[derive(Debug)]
pub struct NumberedCell {
    pub(crate) index: usize,
    pub(crate) geometry: Geometry,
}

impl View for NumberedCell {
    type V = (usize, Geometry);

    /// The identity and the polygon of the cell.
    closed spec fn view(&self) -> (usize, Geometry) {
        (self.index, self.geometry)
    }
}

/// The identities and polygons of a sequence of cells.
pub open spec fn entries(cells: Seq<NumberedCell>) -> Seq<(usize, Geometry)> {
    cells.map_values(|cell: NumberedCell| cell@)
}

/// The polygons of a sequence of cells.
pub open spec fn polygons(cells: Seq<NumberedCell>) -> Seq<Geometry> {
    cells.map_values(|cell: NumberedCell| cell@.1)
}

impl NumberedCell {
    /// A cell with the identity `idx` and the polygon `geom`.
    pub fn new(idx: usize, geom: Geometry) -> (cell: NumberedCell)
        ensures
            cell@ == (idx, geom),
    {
        NumberedCell { index: idx, geometry: geom }
    }

    /// The polygon of the cell.
    pub fn geometry(&self) -> (geometry: &Geometry)
        ensures
            *geometry == self@.1,
    {
        &self.geometry
    }

    /// The identity of the cell.
    pub fn index(&self) -> (index: usize)
        ensures
            index == self@.0,
    {
        self.index
    }
}

} // verus!
