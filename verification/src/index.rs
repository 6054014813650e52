//! The overlap engine: a static index over cells, and the queries on it.

use crate::cell::{entries, polygons, NumberedCell};
use crate::codec::{decoding, encode, encoding};
use crate::error::{IndexError, Role};
use crate::geometry::{
    access_failure_text, array_item, array_items, array_len, coordinate_count, count_coordinates,
    describe_access, envelopes_meet, not_finite_text, overlapping, relate, Geometry,
};
use crate::tree::{hits, tree_entries, EnvelopeTree};
use bincode::ErrorKind;
use geoarrow_array::array::PolygonArray;
use geoarrow_schema::error::GeoArrowError;
use vstd::prelude::*;
use vstd::seq_lib::to_multiset_contains;
use vstd::string::*;

verus! {

/// The bytes that one coordinate takes: two numbers of eight bytes.
pub const COORDINATE_BYTES: usize = 16;

/// The bytes that the tree keeps for each cell besides its coordinates: an
/// envelope of four numbers of eight bytes, and the identity.
pub const NODE_BYTES: usize = 40;

/// The bytes that the cells take, more or less: for each cell its
/// coordinates and the fixed cost of its node in the tree.
pub open spec fn storage_bytes(cells: Seq<Geometry>) -> nat
    decreases cells.len(),
{
    if cells.len() == 0 {
        0
    } else {
        storage_bytes(cells.drop_last()) + coordinate_count(cells.last()) * (
        COORDINATE_BYTES as nat) + (NODE_BYTES as nat)
    }
}

/// The polygons in a sequence of slots, in slot order. Slots that hold none
/// are dropped, so the polygons that follow one move up.
pub open spec fn present(items: Seq<Result<Option<Geometry>, GeoArrowError>>) -> Seq<Geometry>
    decreases items.len(),
{
    if items.len() == 0 {
        Seq::empty()
    } else {
        let rest = present(items.drop_last());
        match items.last() {
            Ok(Some(geometry)) => rest.push(geometry),
            _ => rest,
        }
    }
}

/// Whether a slot holds a polygon.
pub open spec fn holds_polygon(item: Result<Option<Geometry>, GeoArrowError>) -> bool {
    item matches Ok(Some(_))
}

/// Whether every slot of the sequence could be read.
pub open spec fn readable(items: Seq<Result<Option<Geometry>, GeoArrowError>>) -> bool {
    forall|slot: int| 0 <= slot < items.len() ==> (#[trigger] items[slot]) is Ok
}

/// Whether `error` reports the first slot of the sequence that could not be
/// read.
pub open spec fn reports_unreadable(
    items: Seq<Result<Option<Geometry>, GeoArrowError>>,
    error: IndexError,
) -> bool {
    exists|slot: int|
        {
            &&& 0 <= slot < items.len()
            &&& readable(items.take(slot))
            &&& (#[trigger] items[slot]) matches Err(failure)
            &&& error matches IndexError::InputFormat { reason }
            &&& reason@ == access_failure_text(failure)
        }
}

/// Whether every polygon of the sequence can be indexed: all its coordinates
/// are finite.
pub open spec fn all_indexable(geometries: Seq<Geometry>) -> bool {
    forall|i: int| 0 <= i < geometries.len() ==> (#[trigger] geometries[i]).indexable()
}

/// Whether every polygon of the sequence is one on which the overlap
/// predicate is defined.
pub open spec fn all_valid(geometries: Seq<Geometry>) -> bool {
    forall|i: int| 0 <= i < geometries.len() ==> (#[trigger] geometries[i]).valid()
}

/// Whether `error` reports the first polygon of the sequence that cannot be
/// indexed, as a cell at its place.
pub open spec fn reports_unindexable(geometries: Seq<Geometry>, error: IndexError) -> bool {
    exists|position: int|
        {
            &&& 0 <= position < geometries.len()
            &&& all_indexable(geometries.take(position))
            &&& !(#[trigger] geometries[position]).indexable()
            &&& error matches IndexError::Geometry { role, position: at, reason }
            &&& role == Role::Cell
            &&& at == position
            &&& reason@ == not_finite_text()
        }
}

/// Whether the cell `id` stands in the way of a query: the predicate would
/// be evaluated on it, as its envelope intersects the target's, and is
/// undefined on it.
pub open spec fn blocks(cells: Seq<Geometry>, target: Geometry, id: int) -> bool {
    &&& 0 <= id < cells.len()
    &&& envelopes_meet(cells[id], target)
    &&& !cells[id].valid()
}

/// Whether a query with this target can be answered: the predicate is
/// defined on the target and on every cell on which it would be evaluated.
pub open spec fn answerable(cells: Seq<Geometry>, target: Geometry) -> bool {
    &&& target.valid()
    &&& forall|id: int| !blocks(cells, target, id)
}

/// Whether `error` is what a query reports for a target that cannot be
/// answered: the fault of the target, or else the fault of the cell with the
/// least identity that stands in the way.
pub open spec fn is_query_fault(
    cells: Seq<Geometry>,
    target: Geometry,
    position: usize,
    error: IndexError,
) -> bool {
    if !target.valid() {
        target.is_fault(Role::Target, position, error)
    } else {
        exists|id: int|
            {
                &&& #[trigger] blocks(cells, target, id)
                &&& forall|lower: int| 0 <= lower < id ==> !blocks(cells, target, lower)
                &&& cells[id].is_fault(Role::Cell, id as usize, error)
            }
    }
}

/// Whether every target of the sequence can be answered.
pub open spec fn all_answerable(cells: Seq<Geometry>, targets: Seq<Geometry>) -> bool {
    forall|k: int| 0 <= k < targets.len() ==> answerable(cells, #[trigger] targets[k])
}

/// Whether `error` is what a batch of queries reports: the fault of the
/// first target that cannot be answered, at its place.
pub open spec fn reports_first_fault(
    cells: Seq<Geometry>,
    targets: Seq<Geometry>,
    error: IndexError,
) -> bool {
    exists|k: int|
        {
            &&& 0 <= k < targets.len()
            &&& all_answerable(cells, targets.take(k))
            &&& !answerable(cells, #[trigger] targets[k])
            &&& is_query_fault(cells, targets[k], k as usize, error)
        }
}

/// Whether `ids` lists, each once and in any order, exactly the identities of
/// the cells that overlap `query`. Every cell counts, whatever its envelope.
pub open spec fn is_match_list(ids: Seq<usize>, cells: Seq<Geometry>, query: Geometry) -> bool {
    &&& ids.no_duplicates()
    &&& forall|id: usize| #[trigger]
        ids.contains(id) <==> id < cells.len() && overlapping(query, cells[id as int])
}

/// Whether `rows` holds one match list for each query, in the order of the
/// queries.
pub open spec fn are_match_lists(
    rows: Seq<Vec<usize>>,
    cells: Seq<Geometry>,
    queries: Seq<Geometry>,
) -> bool {
    &&& rows.len() == queries.len()
    &&& forall|k: int| 0 <= k < rows.len() ==> is_match_list((#[trigger] rows[k])@, cells, queries[k])
}

/// The reason that a stored fault holds, if it holds one.
pub open spec fn reason_of(fault: Option<String>) -> Option<Seq<char>> {
    match fault {
        Some(reason) => Some(reason@),
        None => None,
    }
}

/// Where all slots hold a polygon, every slot keeps its place.
pub proof fn lemma_present_all(items: Seq<Result<Option<Geometry>, GeoArrowError>>)
    requires
        forall|i: int| 0 <= i < items.len() ==> holds_polygon(#[trigger] items[i]),
    ensures
        present(items).len() == items.len(),
        forall|i: int|
            0 <= i < items.len() ==> items[i] == Ok::<Option<Geometry>, GeoArrowError>(
                Some(#[trigger] present(items)[i]),
            ),
    decreases items.len(),
{
    if items.len() > 0 {
        lemma_present_all(items.drop_last());
    }
}

/// An index built from an array whose slots all hold a polygon has one cell
/// for each slot, and the cell with the identity `i` is the polygon of slot
/// `i`: the identities are exactly the places from 0 up to the number of
/// slots.
pub proof fn lemma_identities_are_places(
    items: Seq<Result<Option<Geometry>, GeoArrowError>>,
    cells: Seq<Geometry>,
)
    requires
        forall|i: int| 0 <= i < items.len() ==> holds_polygon(#[trigger] items[i]),
        cells == present(items),
    ensures
        cells.len() == items.len(),
        forall|i: int|
            0 <= i < items.len() ==> items[i] == Ok::<Option<Geometry>, GeoArrowError>(
                Some(#[trigger] cells[i]),
            ),
{
    lemma_present_all(items);
}

/// On an index without cells every target that is valid can be answered,
/// and every match list is empty.
pub proof fn lemma_empty_index_matches_nothing(ids: Seq<usize>, query: Geometry)
    requires
        query.valid(),
        is_match_list(ids, Seq::<Geometry>::empty(), query),
    ensures
        answerable(Seq::<Geometry>::empty(), query),
        ids.len() == 0,
{
    if ids.len() > 0 {
        assert(ids.contains(ids[0]));
    }
}

/// A match list names only cells of the index.
pub proof fn lemma_match_list_in_range(ids: Seq<usize>, cells: Seq<Geometry>, query: Geometry)
    requires
        is_match_list(ids, cells, query),
    ensures
        forall|k: int| 0 <= k < ids.len() ==> (#[trigger] ids[k]) < cells.len(),
{
    assert forall|k: int| 0 <= k < ids.len() implies (#[trigger] ids[k]) < cells.len() by {
        assert(ids.contains(ids[k]));
    }
}

/// Two match lists for the same query on the same cells hold the same
/// identities: the order in which matches are listed is all that can differ
/// between two runs.
pub proof fn lemma_match_lists_agree(
    first: Seq<usize>,
    second: Seq<usize>,
    cells: Seq<Geometry>,
    query: Geometry,
)
    requires
        is_match_list(first, cells, query),
        is_match_list(second, cells, query),
    ensures
        first.to_set() == second.to_set(),
{
    assert forall|id: usize| first.to_set().contains(id) <==> second.to_set().contains(id) by {
        assert(first.contains(id) <==> second.contains(id));
    }
    assert(first.to_set() =~= second.to_set());
}

/// What a sequence contains after a push, and that it has no element twice
/// where it had none twice before and did not contain the new one.
proof fn lemma_push(before: Seq<usize>, id: usize)
    ensures
        forall|other: usize| #[trigger]
            before.push(id).contains(other) <==> before.contains(other) || other == id,
        before.no_duplicates() && !before.contains(id) ==> before.push(id).no_duplicates(),
{
    let after = before.push(id);
    assert forall|other: usize| #[trigger]
        after.contains(other) <==> before.contains(other) || other == id by {
        if after.contains(other) {
            let at = choose|at: int| 0 <= at < after.len() && after[at] == other;
            if at < before.len() {
                assert(before[at] == other);
            }
        }
        if before.contains(other) {
            let at = choose|at: int| 0 <= at < before.len() && before[at] == other;
            assert(after[at] == other);
        }
        if other == id {
            assert(after[before.len() as int] == id);
        }
    }
    if before.no_duplicates() && !before.contains(id) {
        assert forall|i: int, j: int|
            0 <= i < after.len() && 0 <= j < after.len() && i != j implies after[i] != after[j] by {
            if i < before.len() && j < before.len() {
                assert(before[i] != before[j]);
            } else if i < before.len() {
                assert(before.contains(before[i]));
            } else {
                assert(before.contains(before[j]));
            }
        }
    }
}

/// Where each entry's identity is its place, the hits are the places of the
/// entries whose envelope intersects the query's, each once.
proof fn lemma_hits(cells: Seq<(usize, Geometry)>, query: Geometry)
    requires
        forall|i: int| 0 <= i < cells.len() ==> (#[trigger] cells[i]).0 == i,
    ensures
        hits(cells, query).no_duplicates(),
        forall|id: usize| #[trigger]
            hits(cells, query).contains(id) <==> id < cells.len() && envelopes_meet(
                cells[id as int].1,
                query,
            ),
    decreases cells.len(),
{
    if cells.len() > 0 {
        let front = cells.drop_last();
        let rest = hits(front, query);
        let last = cells.last();
        assert forall|i: int| 0 <= i < front.len() implies (#[trigger] front[i]).0 == i by {
            assert(cells[i].0 == i);
        }
        lemma_hits(front, query);
        lemma_push(rest, last.0);
        assert(last.0 == cells.len() - 1);
        assert(!rest.contains(last.0));
        assert forall|id: usize| #[trigger]
            hits(cells, query).contains(id) <==> id < cells.len() && envelopes_meet(
                cells[id as int].1,
                query,
            ) by {
            if id < front.len() {
                assert(front[id as int] == cells[id as int]);
            }
            assert(rest.contains(id) <==> id < front.len() && envelopes_meet(
                front[id as int].1,
                query,
            ));
        }
    }
}

/// Two sequences with the same elements in the same numbers: where one has
/// no element twice, neither has the other, and they hold the same values.
proof fn lemma_same_elements(found: Seq<usize>, expected: Seq<usize>)
    requires
        found.to_multiset() == expected.to_multiset(),
        expected.no_duplicates(),
    ensures
        found.no_duplicates(),
        forall|id: usize| #[trigger] found.contains(id) <==> expected.contains(id),
{
    expected.lemma_multiset_has_no_duplicates();
    found.lemma_multiset_has_no_duplicates_conv();
    assert forall|id: usize| #[trigger] found.contains(id) <==> expected.contains(id) by {
        to_multiset_contains(found, id);
        to_multiset_contains(expected, id);
    }
}

/// A static spatial index over cells. The cells are numbered in the order in
/// which they were given, from 0 on, and every cell has finite coordinates.
/// With each cell the index keeps what makes the overlap predicate undefined
/// on it, if anything does, found once when the index is built.
#[derive(Debug)]
pub struct CellRTree {
    cells: Vec<NumberedCell>,
    faults: Vec<Option<String>>,
    tree: EnvelopeTree,
}

impl View for CellRTree {
    type V = Seq<Geometry>;

    /// The polygons of the cells; a cell's identity is its place.
    closed spec fn view(&self) -> Seq<Geometry> {
        polygons(self.cells@)
    }
}

impl CellRTree {
    #[verifier::type_invariant]
    spec fn coherent(&self) -> bool {
        &&& tree_entries(self.tree) == entries(self.cells@)
        &&& self.faults@.len() == self.cells@.len()
        &&& forall|i: int|
            0 <= i < self.cells@.len() ==> (#[trigger] self.cells@[i]@).0 == i
                && self.cells@[i]@.1.indexable() && reason_of(self.faults@[i])
                == self.cells@[i]@.1.fault()
    }

    /// An index over the given polygons, numbered in their order.
    ///
    /// Fails on the first polygon that holds a coordinate which is no finite
    /// number, with its place. A polygon that is invalid otherwise is
    /// indexed; queries that would evaluate the predicate on it fail.
    pub fn from_geometries(geometries: Vec<Geometry>) -> (outcome: Result<CellRTree, IndexError>)
        ensures
            match outcome {
                Ok(index) => all_indexable(geometries@) && index@ == geometries@,
                Err(e) => reports_unindexable(geometries@, e),
            },
    {
        let mut cells: Vec<NumberedCell> = Vec::new();
        let mut faults: Vec<Option<String>> = Vec::new();
        for geometry in it: geometries.into_iter()
            invariant
                it.seq() == geometries@,
                cells@.len() == it.index(),
                faults@.len() == it.index(),
                forall|i: int|
                    0 <= i < cells@.len() ==> (#[trigger] cells@[i]@).0 == i && cells@[i]@.1
                        == geometries@[i] && geometries@[i].indexable() && reason_of(faults@[i])
                        == geometries@[i].fault(),
        {
            let position = cells.len();
            if !geometry.has_finite_coordinates() {
                proof {
                    let before = geometries@.take(position as int);
                    assert forall|i: int| 0 <= i < before.len() implies (#[trigger] before[i]).indexable() by {
                        assert(cells@[i]@.1 == geometries@[i]);
                    }
                }
                return Err(
                    IndexError::Geometry {
                        role: Role::Cell,
                        position,
                        reason: String::from_str("a coordinate is not finite"),
                    },
                );
            }
            let fault = geometry.inspect();
            let ghost placed = geometry;
            let ghost before = cells@;
            let ghost known = faults@;
            faults.push(fault);
            cells.push(NumberedCell::new(position, geometry));
            proof {
                assert(placed == geometries@[position as int]);
                assert forall|i: int| 0 <= i < cells@.len() implies (#[trigger] cells@[i]@).0 == i
                    && cells@[i]@.1 == geometries@[i] && geometries@[i].indexable() && reason_of(
                    faults@[i],
                ) == geometries@[i].fault() by {
                    if i < position {
                        assert(cells@[i] == before[i]);
                        assert(before[i]@.0 == i);
                        assert(faults@[i] == known[i]);
                    }
                }
            }
        }
        proof {
            assert forall|i: int| 0 <= i < cells@.len() implies (#[trigger] cells@[i]@).0 == i
                && cells@[i]@.1.indexable() && reason_of(faults@[i]) == cells@[i]@.1.fault() by {
                assert(cells@[i]@.1 == geometries@[i]);
            }
            assert forall|i: int| 0 <= i < geometries@.len() implies (#[trigger] geometries@[i]).indexable() by {
                assert(cells@[i]@.1 == geometries@[i]);
            }
            assert(polygons(cells@) =~= geometries@);
        }
        let tree = EnvelopeTree::load(&cells);
        Ok(CellRTree { cells, faults, tree })
    }

    /// An index over the polygons of an array. Null slots are dropped, and
    /// the cells are numbered without them.
    ///
    /// Fails on the first slot that cannot be read, and else on the first
    /// polygon that holds a coordinate which is no finite number, with its
    /// place among the polygons that are present.
    pub fn create(cell_geoms: &PolygonArray) -> (outcome: Result<CellRTree, IndexError>)
        ensures
            match outcome {
                Ok(index) => {
                    &&& readable(array_items(*cell_geoms))
                    &&& all_indexable(present(array_items(*cell_geoms)))
                    &&& index@ == present(array_items(*cell_geoms))
                },
                Err(e) => if readable(array_items(*cell_geoms)) {
                    reports_unindexable(present(array_items(*cell_geoms)), e)
                } else {
                    reports_unreadable(array_items(*cell_geoms), e)
                },
            },
    {
        match gather(cell_geoms) {
            Err(e) => Err(e),
            Ok(geometries) => CellRTree::from_geometries(geometries),
        }
    }

    /// The index without cells.
    pub fn empty() -> (index: CellRTree)
        ensures
            index@ == Seq::<Geometry>::empty(),
    {
        let cells: Vec<NumberedCell> = Vec::new();
        let faults: Vec<Option<String>> = Vec::new();
        let tree = EnvelopeTree::new();
        proof {
            assert(entries(cells@) =~= Seq::<(usize, Geometry)>::empty());
            assert(polygons(cells@) =~= Seq::<Geometry>::empty());
        }
        CellRTree { cells, faults, tree }
    }

    /// The number of cells.
    pub fn size(&self) -> (size: usize)
        ensures
            size == self@.len(),
            all_indexable(self@),
    {
        proof {
            use_type_invariant(self);
            assert forall|i: int| 0 <= i < self@.len() implies (#[trigger] self@[i]).indexable() by {
                assert(self.cells@[i]@.1.indexable());
            }
        }
        self.tree.size()
    }

    /// An estimate of the memory that the index takes, for planning: the
    /// storage of every cell's coordinates plus a fixed cost for each node.
    /// An estimate beyond the largest machine size is returned as that size.
    pub fn approximate_byte_size(&self) -> (size: usize)
        ensures
            size == if storage_bytes(self@) <= usize::MAX {
                storage_bytes(self@)
            } else {
                usize::MAX as nat
            },
    {
        let count = self.cells.len();
        let mut size: usize = 0;
        let mut k: usize = 0;
        assert(self@.take(0) =~= Seq::<Geometry>::empty());
        while k < count
            invariant
                count == self.cells@.len(),
                count == self@.len(),
                k <= count,
                size == if storage_bytes(self@.take(k as int)) <= usize::MAX {
                    storage_bytes(self@.take(k as int))
                } else {
                    usize::MAX as nat
                },
            decreases count - k,
        {
            let coordinates = count_coordinates(self.cells[k].geometry());
            proof {
                assert(self@.take(k + 1).drop_last() =~= self@.take(k as int));
                assert(self@.take(k + 1).last() == self.cells@[k as int]@.1);
            }
            let own = match coordinates.checked_mul(COORDINATE_BYTES) {
                Some(bytes) => bytes.checked_add(NODE_BYTES),
                None => None,
            };
            size = match own {
                Some(bytes) => size.saturating_add(bytes),
                None => usize::MAX,
            };
            k = k + 1;
        }
        proof {
            assert(self@.take(count as int) =~= self@);
        }
        size
    }

    /// The state of an index with these cells and the given logical shape,
    /// as bytes.
    pub(crate) fn encode_state(&self, shape: &Vec<usize>) -> (outcome: Result<
        Vec<u8>,
        Box<ErrorKind>,
    >)
        ensures
            match outcome {
                Ok(bytes) => {
                    &&& encoding(self@, shape@) == Ok::<Seq<u8>, ErrorKind>(bytes@)
                    &&& decoding(bytes@) == Ok::<(Seq<Geometry>, Seq<usize>), ErrorKind>(
                        (self@, shape@),
                    )
                },
                Err(failure) => encoding(self@, shape@) == Err::<Seq<u8>, ErrorKind>(*failure),
            },
    {
        encode(&self.cells, shape)
    }

    /// The identities of the cells that overlap a valid target, or the fault
    /// of the cell with the least identity that stands in the way.
    fn matches(&self, query: &Geometry) -> (outcome: Result<Vec<usize>, IndexError>)
        requires
            query.valid(),
        ensures
            match outcome {
                Ok(ids) => answerable(self@, *query) && is_match_list(ids@, self@, *query),
                Err(e) => !answerable(self@, *query) && is_query_fault(self@, *query, 0, e),
            },
    {
        proof {
            use_type_invariant(self);
        }
        let ghost tagged = entries(self.cells@);
        let candidates = self.tree.locate(query);
        proof {
            lemma_hits(tagged, *query);
            lemma_same_elements(candidates@, hits(tagged, *query));
            assert forall|id: int| 0 <= id < self@.len() implies tagged[id].1 == self@[id] by {}
        }
        let count = candidates.len();
        let mut worst: Option<usize> = None;
        let mut k: usize = 0;
        while k < count
            invariant
                count == candidates@.len(),
                k <= count,
                self.faults@.len() == self.cells@.len(),
                self@.len() == self.cells@.len(),
                forall|i: int|
                    0 <= i < self.cells@.len() ==> reason_of(#[trigger] self.faults@[i])
                        == self@[i].fault(),
                forall|id: usize| #[trigger] candidates@.contains(id) ==> id < self@.len(),
                match worst {
                    None => forall|id: usize| #[trigger]
                        candidates@.take(k as int).contains(id) ==> self@[id as int].valid(),
                    Some(least) => {
                        &&& candidates@.contains(least)
                        &&& !self@[least as int].valid()
                        &&& forall|id: usize| #[trigger]
                            candidates@.take(k as int).contains(id) && !self@[id as int].valid()
                                ==> least <= id
                    },
                },
            decreases count - k,
        {
            let id = candidates[k];
            assert(candidates@.contains(id));
            proof {
                assert(candidates@.take(k + 1) =~= candidates@.take(k as int).push(id));
                lemma_push(candidates@.take(k as int), id);
            }
            if self.faults[id].is_some() {
                worst = match worst {
                    Some(least) if least <= id => Some(least),
                    _ => Some(id),
                };
            }
            k = k + 1;
        }
        proof {
            assert(candidates@.take(count as int) =~= candidates@);
        }
        if let Some(least) = worst {
            if let Some(reason) = &self.faults[least] {
                proof {
                    assert(blocks(self@, *query, least as int));
                    assert forall|lower: int| 0 <= lower < least implies !blocks(
                        self@,
                        *query,
                        lower,
                    ) by {
                        if blocks(self@, *query, lower) {
                            assert(candidates@.contains(lower as usize));
                        }
                    }
                }
                return Err(
                    IndexError::Geometry {
                        role: Role::Cell,
                        position: least,
                        reason: reason.clone(),
                    },
                );
            }
        }
        proof {
            assert forall|id: int| !blocks(self@, *query, id) by {
                if blocks(self@, *query, id) {
                    assert(candidates@.contains(id as usize));
                }
            }
        }
        let mut ids: Vec<usize> = Vec::new();
        let mut k: usize = 0;
        while k < count
            invariant
                query.valid(),
                count == candidates@.len(),
                k <= count,
                self@.len() == self.cells@.len(),
                forall|i: int|
                    0 <= i < self.cells@.len() ==> (#[trigger] self.cells@[i]@).1 == self@[i],
                candidates@.no_duplicates(),
                forall|id: usize| #[trigger]
                    candidates@.contains(id) <==> id < self@.len() && envelopes_meet(
                        self@[id as int],
                        *query,
                    ),
                forall|id: usize| #[trigger] candidates@.contains(id) ==> self@[id as int].valid(),
                ids@.no_duplicates(),
                forall|id: usize| #[trigger]
                    ids@.contains(id) <==> candidates@.take(k as int).contains(id) && overlapping(
                        *query,
                        self@[id as int],
                    ),
            decreases count - k,
        {
            let id = candidates[k];
            assert(candidates@.contains(id));
            let cell = &self.cells[id];
            assert(self.cells@[id as int]@.1 == self@[id as int]);
            let hit = relate(query, cell.geometry()).is_overlap();
            proof {
                let before = candidates@.take(k as int);
                assert(candidates@.take(k + 1) =~= before.push(id));
                lemma_push(before, id);
                assert(!before.contains(id)) by {
                    if before.contains(id) {
                        let at = choose|at: int| 0 <= at < before.len() && before[at] == id;
                        assert(candidates@[at] == candidates@[k as int]);
                    }
                }
                assert(!ids@.contains(id));
                lemma_push(ids@, id);
            }
            if hit {
                ids.push(id);
            }
            k = k + 1;
        }
        proof {
            assert(candidates@.take(count as int) =~= candidates@);
        }
        Ok(ids)
    }

    /// The identities of the cells that overlap `cell`, each once, in no
    /// particular order: the cells for which the overlap predicate holds when
    /// it is evaluated on every cell of the index.
    ///
    /// Fails where the predicate is undefined on `cell`, and else where it
    /// is undefined on a cell whose envelope intersects that of `cell`; the
    /// one with the least identity is reported.
    pub fn overlaps_one(&self, cell: &Geometry) -> (outcome: Result<Vec<usize>, IndexError>)
        ensures
            match outcome {
                Ok(ids) => answerable(self@, *cell) && is_match_list(ids@, self@, *cell),
                Err(e) => !answerable(self@, *cell) && is_query_fault(self@, *cell, 0, e),
            },
    {
        match cell.check(Role::Target, 0) {
            Err(e) => Err(e),
            Ok(()) => self.matches(cell),
        }
    }

    /// For each of the given polygons, in order, the identities of the cells
    /// that overlap it.
    ///
    /// Fails on the first target that cannot be answered, with its place.
    pub fn overlaps_each(&self, targets: &Vec<Geometry>) -> (outcome: Result<
        Vec<Vec<usize>>,
        IndexError,
    >)
        ensures
            match outcome {
                Ok(rows) => all_answerable(self@, targets@) && are_match_lists(
                    rows@,
                    self@,
                    targets@,
                ),
                Err(e) => reports_first_fault(self@, targets@, e),
            },
    {
        let count = targets.len();
        let mut rows: Vec<Vec<usize>> = Vec::new();
        let mut k: usize = 0;
        while k < count
            invariant
                count == targets@.len(),
                k <= count,
                all_answerable(self@, targets@.take(k as int)),
                are_match_lists(rows@, self@, targets@.take(k as int)),
            decreases count - k,
        {
            let target = &targets[k];
            let found = match target.check(Role::Target, k) {
                Err(e) => Err(e),
                Ok(()) => match self.matches(target) {
                    Ok(ids) => Ok(ids),
                    Err(IndexError::Geometry { role, position, reason }) => Err(
                        IndexError::Geometry { role, position, reason },
                    ),
                    Err(e) => Err(e),
                },
            };
            match found {
                Err(e) => {
                    proof {
                        assert(is_query_fault(self@, targets@[k as int], k, e));
                    }
                    return Err(e);
                },
                Ok(ids) => {
                    let ghost seen = targets@.take(k as int);
                    rows.push(ids);
                    proof {
                        let longer = targets@.take(k + 1);
                        assert(longer =~= seen.push(targets@[k as int]));
                        assert forall|i: int| 0 <= i < longer.len() implies answerable(
                            self@,
                            #[trigger] longer[i],
                        ) by {
                            if i < k {
                                assert(answerable(self@, seen[i]));
                            }
                        }
                    }
                },
            }
            k = k + 1;
        }
        proof {
            assert(targets@.take(count as int) =~= targets@);
        }
        Ok(rows)
    }

    /// For each polygon of the array, in order, the identities of the cells
    /// that overlap it. Null slots are dropped.
    ///
    /// Fails on the first slot that cannot be read, and else on the first
    /// target that cannot be answered, with its place among the polygons
    /// that are present.
    pub fn overlaps(&self, cells: &PolygonArray) -> (outcome: Result<Vec<Vec<usize>>, IndexError>)
        ensures
            match outcome {
                Ok(rows) => {
                    &&& readable(array_items(*cells))
                    &&& all_answerable(self@, present(array_items(*cells)))
                    &&& are_match_lists(rows@, self@, present(array_items(*cells)))
                },
                Err(e) => if readable(array_items(*cells)) {
                    reports_first_fault(self@, present(array_items(*cells)), e)
                } else {
                    reports_unreadable(array_items(*cells), e)
                },
            },
    {
        match gather(cells) {
            Err(e) => Err(e),
            Ok(targets) => self.overlaps_each(&targets),
        }
    }
}

/// The polygons that are present in an array, in slot order, or the failure
/// to read the first slot that cannot be read.
fn gather(array: &PolygonArray) -> (outcome: Result<Vec<Geometry>, IndexError>)
    ensures
        match outcome {
            Ok(geometries) => readable(array_items(*array)) && geometries@ == present(
                array_items(*array),
            ),
            Err(e) => !readable(array_items(*array)) && reports_unreadable(array_items(*array), e),
        },
{
    let ghost items = array_items(*array);
    let slots = array_len(array);
    let mut geometries: Vec<Geometry> = Vec::new();
    let mut slot: usize = 0;
    assert(items.take(0) =~= Seq::<Result<Option<Geometry>, GeoArrowError>>::empty());
    while slot < slots
        invariant
            items == array_items(*array),
            slots == items.len(),
            slot <= slots,
            readable(items.take(slot as int)),
            geometries@ == present(items.take(slot as int)),
        decreases slots - slot,
    {
        proof {
            assert(items.take(slot + 1).drop_last() =~= items.take(slot as int));
            assert(items.take(slot + 1).last() == items[slot as int]);
        }
        match array_item(array, slot) {
            Err(failure) => {
                return Err(IndexError::InputFormat { reason: describe_access(&failure) });
            },
            Ok(None) => {},
            Ok(Some(geometry)) => {
                geometries.push(geometry);
            },
        }
        proof {
            assert forall|i: int| 0 <= i < slot + 1 implies (#[trigger] items.take(slot + 1)[i]) is Ok by {
                if i < slot {
                    assert(items.take(slot as int)[i] is Ok);
                }
            }
        }
        slot = slot + 1;
    }
    proof {
        assert(items.take(slots as int) =~= items);
    }
    Ok(geometries)
}

} // verus!
