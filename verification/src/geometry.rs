//! Polygons, and what the geometry crates decide about them.
//!
//! Coordinates never appear here. A polygon is an opaque value; its validity,
//! its bounding envelope and its topological relation to another polygon are
//! decided by `geo` and `rstar`, and this module gives those decisions names
//! that contracts can speak of.

use crate::error::{IndexError, Role};
use geo::algorithm::validation::InvalidPolygon;
use geo::{CoordsIter, MultiLineString, MultiPoint, Relate, Validation};
use geo_traits::to_geo::ToGeoPolygon;
use geoarrow_array::array::PolygonArray;
use geoarrow_array::{GeoArrowArray, GeoArrowArrayAccessor};
use geoarrow_schema::error::GeoArrowError;
use rstar::primitives::CachedEnvelope;
use vstd::prelude::*;

verus! {

/// `geoarrow_array::array::PolygonArray`: an immutable array of polygons in
/// columnar form, some slots of which may be null. Nothing is known of its
/// inside; `array_items` names what it holds.
#[verifier::external_type_specification]
#[verifier::external_body]
pub struct ExPolygonArray(PolygonArray);

/// `geo::algorithm::validation::InvalidPolygon`: the rule of validity that a
/// polygon breaks. It is carried from the check to its description.
#[verifier::external_type_specification]
#[verifier::external_body]
pub struct ExInvalidPolygon(InvalidPolygon);

/// `geoarrow_schema::error::GeoArrowError`: why a slot of an array could
/// not be read. It is carried from the access to its description.
#[verifier::external_type_specification]
#[verifier::external_body]
pub struct ExGeoArrowError(GeoArrowError);

/// An immutable polygon: one exterior ring and any number of holes, with the
/// bounding envelope that was computed when the value was made.
///
/// The polygon is a `geo::Polygon` inside `rstar`'s `CachedEnvelope`. Neither
/// type can be declared to the verifier, as both are bounded by traits of
/// their crates, so the whole struct is hidden from it.
#[verifier::external_body]
#[derive(Debug)]
pub struct Geometry {
    pub(crate) shape: CachedEnvelope<geo::Polygon>,
}

/// The two facts of a topological relation that the overlap predicate reads.
#[derive(Clone, Copy, Debug, PartialEq, Eq, Structural)]
pub struct Relation {
    /// The geometries have at least one point in common.
    pub intersects: bool,
    /// The geometries have a point in common, but their interiors have none.
    pub touches: bool,
}

/// What a polygon array holds, slot by slot: a polygon, nothing where the
/// slot is null, or the failure to read the slot.
pub uninterp spec fn array_items(array: PolygonArray) -> Seq<
    Result<Option<Geometry>, GeoArrowError>,
>;

/// The text in which `geoarrow` describes a failure to read a slot.
pub uninterp spec fn access_failure_text(failure: GeoArrowError) -> Seq<char>;

/// What the validity check of `geo` finds in a polygon.
pub uninterp spec fn validation(geometry: Geometry) -> Result<(), InvalidPolygon>;

/// The text in which `geo` describes a validity failure.
pub uninterp spec fn failure_text(failure: InvalidPolygon) -> Seq<char>;

/// Whether every coordinate of a polygon, in the exterior ring and in the
/// holes, is a finite number, as `geo` decides it of the coordinates taken
/// as points.
pub uninterp spec fn coordinates_finite(geometry: Geometry) -> bool;

/// Whether every ring of a polygon ends where it begins, as `geo` compares
/// the first and the last coordinate of each. A ring without coordinates is
/// closed.
pub uninterp spec fn rings_closed(geometry: Geometry) -> bool;

/// Whether the bounding envelopes of two polygons intersect, as `rstar`
/// tests it. Envelopes that only touch do intersect. The test is symmetric;
/// the contracts of this crate write the indexed cell first.
pub uninterp spec fn envelopes_meet(cell: Geometry, query: Geometry) -> bool;

/// What `geo` finds when it relates two valid polygons whose envelopes
/// intersect.
pub uninterp spec fn detailed_relation(query: Geometry, cell: Geometry) -> Relation;

/// The number of coordinates in the rings of a polygon, as `geo` counts them.
pub uninterp spec fn coordinate_count(geometry: Geometry) -> nat;

/// The relation of two polygons that have no point in common.
pub open spec fn disjoint() -> Relation {
    Relation { intersects: false, touches: false }
}

/// The topological relation of `query` to `cell`. Polygons whose envelopes
/// do not intersect are disjoint; the others are related in detail.
pub open spec fn relation(query: Geometry, cell: Geometry) -> Relation {
    if envelopes_meet(cell, query) {
        detailed_relation(query, cell)
    } else {
        disjoint()
    }
}

/// The overlap predicate: the two polygons intersect, and not merely by
/// touching along their boundaries.
pub open spec fn overlapping(query: Geometry, cell: Geometry) -> bool {
    relation(query, cell).is_overlap()
}

impl Relation {
    /// Whether the relation is a genuine overlap: an intersection that is not
    /// limited to boundary contact.
    #[verifier::when_used_as_spec(spec_is_overlap)]
    pub fn is_overlap(self) -> (overlap: bool)
        ensures
            overlap == (self.intersects && !self.touches),
    {
        self.intersects && !self.touches
    }

    /// Whether the relation is a genuine overlap.
    pub open spec fn spec_is_overlap(self) -> bool {
        self.intersects && !self.touches
    }
}

/// The number of slots of a polygon array, null slots included.
///
/// Calls `GeoArrowArray::len`. Trusted: the length is that of the array's
/// contents.
#[verifier::external_body]
pub(crate) fn array_len(array: &PolygonArray) -> (len: usize)
    ensures
        len == array_items(*array).len(),
{
    array.len()
}

/// The polygon in a slot of a polygon array, `None` for a null slot.
///
/// Calls `GeoArrowArrayAccessor::get` and converts the scalar to a
/// `geo::Polygon` with `ToGeoPolygon::to_polygon`, which closes its rings.
/// Trusted: the result is what the array holds in that slot. The outside
/// call panics on a slot beyond the array's length. `geoarrow` documents
/// that access to an array in its native layout does not fail.
#[verifier::external_body]
pub(crate) fn array_item(array: &PolygonArray, slot: usize) -> (item: Result<
    Option<Geometry>,
    GeoArrowError,
>)
    requires
        slot < array_items(*array).len(),
    ensures
        item == array_items(*array)[slot as int],
{
    match array.get(slot) {
        Ok(Some(polygon)) => Ok(
            Some(Geometry { shape: CachedEnvelope::new(polygon.to_polygon()) }),
        ),
        Ok(None) => Ok(None),
        Err(failure) => Err(failure),
    }
}

/// The text of a failure to read a slot.
///
/// Calls the `Display` impl of `GeoArrowError`. Trusted: the text is a
/// function of the failure.
#[verifier::external_body]
pub(crate) fn describe_access(failure: &GeoArrowError) -> (text: String)
    ensures
        text@ == access_failure_text(*failure),
{
    failure.to_string()
}

/// Runs the validity check of `geo` on a polygon.
///
/// Calls `Validation::check_validation`, which reports the first rule that
/// the polygon breaks: a ring of too few points, a ring that intersects
/// itself, a coordinate that is not finite, a hole outside the exterior, or
/// rings that intersect. A polygon without an exterior ring passes, whatever
/// its holes hold. Trusted: the result is a function of the polygon.
#[verifier::external_body]
pub(crate) fn validate(geometry: &Geometry) -> (found: Result<(), InvalidPolygon>)
    ensures
        found == validation(*geometry),
{
    geometry.shape.check_validation()
}

/// The text of a validity failure.
///
/// Calls the `Display` impl of `InvalidPolygon`. Trusted: the text is a
/// function of the failure.
#[verifier::external_body]
pub(crate) fn describe(failure: &InvalidPolygon) -> (text: String)
    ensures
        text@ == failure_text(*failure),
{
    failure.to_string()
}

/// Relates `query` to `cell` topologically.
///
/// Calls `Relate::relate` and reads `is_intersects` and `is_touches` from the
/// matrix it returns. Trusted: the result is a function of the two polygons,
/// and it is the disjoint relation where the envelopes do not intersect:
/// `relate` begins by testing the two bounding rectangles and fills in the
/// matrix of disjoint geometries when they do not intersect, or when a
/// polygon has no exterior ring. A valid polygon has an empty exterior ring,
/// and then an envelope that spans the plane, or finite coordinates, on
/// which that test agrees with `rstar`'s test on the envelopes. `relate`
/// must not be called on geometries that hold a NaN, and it asserts that
/// the rings it walks are closed. That it does not panic on valid polygons
/// with closed rings rests on its documentation.
#[verifier::external_body]
pub(crate) fn relate(query: &Geometry, cell: &Geometry) -> (found: Relation)
    requires
        query.valid(),
        cell.valid(),
    ensures
        found == if envelopes_meet(*cell, *query) {
            detailed_relation(*query, *cell)
        } else {
            disjoint()
        },
{
    let matrix = query.shape.relate(&*cell.shape);
    Relation { intersects: matrix.is_intersects(), touches: matrix.is_touches() }
}

/// The number of coordinates in the rings of a polygon.
///
/// Calls `CoordsIter::coords_count`, which adds up the lengths of the
/// exterior ring and of the holes. Trusted: the count is a function of the
/// polygon.
#[verifier::external_body]
pub(crate) fn count_coordinates(geometry: &Geometry) -> (count: usize)
    ensures
        count == coordinate_count(*geometry),
{
    geometry.shape.coords_count()
}

/// Whether all coordinates of a polygon are finite.
///
/// Collects the coordinates of all rings into a `geo::MultiPoint` and calls
/// `Validation::is_valid` on it, which holds exactly when every point has
/// finite coordinates. Trusted: the result is a function of the polygon.
#[verifier::external_body]
pub(crate) fn finite(geometry: &Geometry) -> (finite: bool)
    ensures
        finite == coordinates_finite(*geometry),
{
    let points: MultiPoint = geometry.shape.coords_iter().collect();
    points.is_valid()
}

/// Whether all rings of a polygon are closed.
///
/// Copies the rings into a `geo::MultiLineString` and calls
/// `MultiLineString::is_closed` on it, which holds exactly when
/// `LineString::is_closed` holds of every ring. Trusted: the result is a
/// function of the polygon.
#[verifier::external_body]
pub(crate) fn closed(geometry: &Geometry) -> (closed: bool)
    ensures
        closed == rings_closed(*geometry),
{
    let (exterior, mut rings) = geo::Polygon::clone(&geometry.shape).into_inner();
    rings.push(exterior);
    MultiLineString::new(rings).is_closed()
}

/// Whether `error` reports that the slot could not be read.
pub open spec fn is_access_failure(
    item: Result<Option<Geometry>, GeoArrowError>,
    error: IndexError,
) -> bool {
    &&& item matches Err(failure)
    &&& error matches IndexError::InputFormat { reason }
    &&& reason@ == access_failure_text(failure)
}

/// The text of the fault of a polygon with an open ring.
pub open spec fn open_ring_text() -> Seq<char> {
    "a ring is not closed"@
}

/// The text of the fault of a polygon with a coordinate that is no finite
/// number.
pub open spec fn not_finite_text() -> Seq<char> {
    "a coordinate is not finite"@
}

impl Geometry {
    /// Why the overlap predicate is undefined on the polygon, if it is: a
    /// ring is open, or the polygon breaks a rule of validity.
    pub open spec fn fault(self) -> Option<Seq<char>> {
        if !rings_closed(self) {
            Some(open_ring_text())
        } else {
            match validation(self) {
                Ok(()) => None,
                Err(failure) => Some(failure_text(failure)),
            }
        }
    }

    /// Whether the overlap predicate is defined on the polygon: its rings
    /// are closed and it passes the validity check.
    pub open spec fn valid(self) -> bool {
        self.fault() is None
    }

    /// Whether the polygon can be indexed: all its coordinates are finite.
    pub open spec fn indexable(self) -> bool {
        coordinates_finite(self)
    }

    /// Whether `error` reports the fault of this polygon in the given role
    /// and at the given position.
    pub open spec fn is_fault(self, role: Role, position: usize, error: IndexError) -> bool {
        &&& error matches IndexError::Geometry { role: as_role, position: at, reason }
        &&& as_role == role
        &&& at == position
        &&& self.fault() == Some(reason@)
    }

    /// What `check` reports for this polygon.
    pub open spec fn check_outcome(
        self,
        role: Role,
        position: usize,
        outcome: Result<(), IndexError>,
    ) -> bool {
        match outcome {
            Ok(()) => self.valid(),
            Err(error) => self.is_fault(role, position, error),
        }
    }

    /// The polygon in a slot of an array; `None` for a null slot and for a
    /// slot beyond the array. A slot that cannot be read is an error.
    pub fn from_array(array: &PolygonArray, slot: usize) -> (outcome: Result<
        Option<Geometry>,
        IndexError,
    >)
        ensures
            match outcome {
                Ok(geometry) => if slot < array_items(*array).len() {
                    array_items(*array)[slot as int] == Ok::<Option<Geometry>, GeoArrowError>(
                        geometry,
                    )
                } else {
                    geometry is None
                },
                Err(error) => {
                    &&& slot < array_items(*array).len()
                    &&& is_access_failure(array_items(*array)[slot as int], error)
                },
            },
    {
        if slot < array_len(array) {
            match array_item(array, slot) {
                Ok(geometry) => Ok(geometry),
                Err(failure) => Err(IndexError::InputFormat { reason: describe_access(&failure) }),
            }
        } else {
            Ok(None)
        }
    }

    /// Whether all coordinates of the polygon are finite numbers.
    pub fn has_finite_coordinates(&self) -> (finite: bool)
        ensures
            finite == self.indexable(),
    {
        finite(self)
    }

    /// Why the overlap predicate is undefined on the polygon, if it is.
    pub fn inspect(&self) -> (fault: Option<String>)
        ensures
            match fault {
                Some(reason) => self.fault() == Some(reason@),
                None => self.fault() is None,
            },
    {
        if !closed(self) {
            Some(String::from_str("a ring is not closed"))
        } else {
            match validate(self) {
                Ok(()) => None,
                Err(failure) => Some(describe(&failure)),
            }
        }
    }

    /// Checks that the overlap predicate is defined on the polygon. A fault
    /// is reported as a geometry error that carries the role, the position
    /// and the rule that is broken.
    pub fn check(&self, role: Role, position: usize) -> (outcome: Result<(), IndexError>)
        ensures
            self.check_outcome(role, position, outcome),
    {
        match self.inspect() {
            None => Ok(()),
            Some(reason) => Err(IndexError::Geometry { role, position, reason }),
        }
    }

    /// Whether this polygon, as the target, overlaps `cell`: they intersect,
    /// and not merely along their boundaries. A fault in a polygon is an
    /// error, that of the target first; both are at position 0.
    pub fn overlaps(&self, cell: &Geometry) -> (outcome: Result<bool, IndexError>)
        ensures
            match outcome {
                Ok(hit) => self.valid() && cell.valid() && hit == overlapping(*self, *cell),
                Err(e) => if !self.valid() {
                    self.is_fault(Role::Target, 0, e)
                } else {
                    cell.is_fault(Role::Cell, 0, e)
                },
            },
    {
        match self.check(Role::Target, 0) {
            Err(e) => Err(e),
            Ok(()) => match cell.check(Role::Cell, 0) {
                Err(e) => Err(e),
                Ok(()) => Ok(relate(self, cell).is_overlap()),
            },
        }
    }
}

} // verus!
