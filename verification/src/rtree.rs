//! The index as its callers hold it: the cells, the logical shape of the
//! grid they come from, queries by mode, and the state protocol.

use crate::codec::{codec_failure_text, decode, decoding, describe_failure, encoding};
use crate::error::IndexError;
use crate::geometry::{array_items, overlapping, Geometry};
use crate::index::{
    all_answerable, all_indexable, all_valid, is_match_list, lemma_match_list_in_range, present,
    readable, reports_first_fault, reports_unindexable, reports_unreadable, storage_bytes,
    CellRTree,
};
use crate::shape::{element_count, in_bounds, lemma_count_concat, linear_index};
use crate::sparse::{lemma_reshape_keeps_matches, AsSparse, SparseMatrix, SparseView};
use bincode::ErrorKind;
use geoarrow_array::array::PolygonArray;
use vstd::prelude::*;
use vstd::string::*;

verus! {

/// What an index holds: the polygons of its cells, a cell's identity being
/// its place, and the logical shape of the grid that the cells come from.
pub struct RTreeView {
    pub cells: Seq<Geometry>,
    pub shape: Seq<usize>,
}

/// A spatial index over grid cells that remembers the shape of the grid.
///
/// The search happens in the flat plane of the coordinates as they are
/// given; nothing is corrected near the poles or the date line.
#[derive(Debug)]
pub struct RTree {
    tree: CellRTree,
    shape: Vec<usize>,
}

impl View for RTree {
    type V = RTreeView;

    closed spec fn view(&self) -> RTreeView {
        RTreeView { cells: self.tree@, shape: self.shape@ }
    }
}

/// The modes in which the index can be queried.
#[derive(Clone, Copy, Debug, PartialEq, Eq, Structural)]
pub enum QueryMode {
    /// Cells that intersect the target, and not merely along a boundary.
    Overlaps,
}

/// The shape that stands for a missing one: a single axis with one place
/// for each polygon that is present.
pub open spec fn shape_or_flat(shape: Option<Vec<usize>>, count: nat) -> Seq<usize> {
    match shape {
        Some(given) => given@,
        None => seq![count as usize],
    }
}

/// The index that a state buffer restores to, if it restores to any: the
/// buffer must decode, and every polygon in it must have finite coordinates.
pub open spec fn restored(bytes: Seq<u8>) -> Option<RTreeView> {
    match decoding(bytes) {
        Ok((cells, shape)) => if all_indexable(cells) {
            Some(RTreeView { cells, shape })
        } else {
            None
        },
        Err(_) => None,
    }
}

/// Whether `bytes` is an exported state of `index`: the codec wrote it for
/// the index's cells and shape, and reads the same back from it.
pub open spec fn is_export(index: RTreeView, bytes: Seq<u8>) -> bool {
    &&& encoding(index.cells, index.shape) == Ok::<Seq<u8>, ErrorKind>(bytes)
    &&& decoding(bytes) == Ok::<(Seq<Geometry>, Seq<usize>), ErrorKind>((index.cells, index.shape))
}

/// Whether `error` is what a restore reports for a buffer that restores to
/// no index: the codec's failure, or the first polygon that cannot be
/// indexed in what the buffer decodes to.
pub open spec fn is_restore_failure(bytes: Seq<u8>, error: IndexError) -> bool {
    &&& error matches IndexError::Serialization { reason }
    &&& match decoding(bytes) {
        Err(failure) => reason@ == codec_failure_text(failure),
        Ok((cells, _)) => exists|cause: IndexError|
            reports_unindexable(cells, cause) && reason@ == #[trigger] cause.message_text(),
    }
}

/// Whether `matrix` answers the queries on the cells: one row for each
/// query, holding the identities of the cells that overlap it, viewed in
/// `shape`.
pub open spec fn is_answer(
    matrix: SparseView,
    cells: Seq<Geometry>,
    queries: Seq<Geometry>,
    shape: Seq<usize>,
) -> bool {
    &&& matrix.well_formed()
    &&& matrix.rows() == queries.len()
    &&& matrix.columns == cells.len()
    &&& matrix.shape == shape
    &&& forall|k: int|
        0 <= k < queries.len() ==> is_match_list(
            #[trigger] matrix.row(k),
            cells,
            queries[k],
        )
}

/// What a query reports when every target can be answered but the final
/// shape does not hold one element for each pair of a target and a cell.
pub open spec fn is_shape_failure(
    error: IndexError,
    rows: nat,
    columns: nat,
    final_shape: Seq<usize>,
) -> bool {
    &&& error matches IndexError::Reshape { requested, rows: had, columns: wide }
    &&& had == rows
    &&& wide == columns
    &&& requested@ == final_shape
    &&& element_count(final_shape) != rows * columns
}

/// The empty index: no cells, and the shape of one axis without places. It
/// is the target into which a state is restored.
pub fn create_empty() -> (index: RTree)
    ensures
        index@ == (RTreeView { cells: Seq::empty(), shape: seq![0usize] }),
{
    let mut shape: Vec<usize> = Vec::new();
    shape.push(0);
    assert(shape@ =~= seq![0usize]);
    RTree { tree: CellRTree::empty(), shape }
}

impl QueryMode {
    /// The mode that a selector names: none, or `overlaps`, is the overlap
    /// mode; any other name is no mode.
    pub open spec fn named(value: Option<Seq<char>>) -> Option<QueryMode> {
        match value {
            None => Some(QueryMode::Overlaps),
            Some(name) => if name == "overlaps"@ {
                Some(QueryMode::Overlaps)
            } else {
                None
            },
        }
    }

    /// Reads a mode selector. A name that is not known is an error that
    /// carries the name; it never falls back to a default.
    pub fn try_from(value: Option<&str>) -> (outcome: Result<QueryMode, IndexError>)
        ensures
            match outcome {
                Ok(mode) => QueryMode::named(
                    match value {
                        Some(name) => Some(name@),
                        None => None,
                    },
                ) == Some(mode),
                Err(IndexError::UnknownMode { name }) => {
                    &&& value matches Some(given)
                    &&& given@ != "overlaps"@
                    &&& name@ == given@
                },
                Err(_) => false,
            },
    {
        match value {
            None => Ok(QueryMode::Overlaps),
            Some(given) => {
                let name = String::from_str(given);
                let known = String::from_str("overlaps");
                if name == known {
                    Ok(QueryMode::Overlaps)
                } else {
                    Err(IndexError::UnknownMode { name })
                }
            },
        }
    }
}

impl RTree {
    /// An index over the polygons of an array, with the logical shape of the
    /// grid they come from. Without a shape the grid is one axis as long as
    /// there are cells.
    ///
    /// Fails on the first slot that cannot be read, and else on the first
    /// polygon that holds a coordinate which is no finite number; nothing is
    /// built then.
    pub fn new(source_cells: &PolygonArray, shape: Option<Vec<usize>>) -> (outcome: Result<
        RTree,
        IndexError,
    >)
        ensures
            match outcome {
                Ok(index) => {
                    &&& readable(array_items(*source_cells))
                    &&& all_indexable(present(array_items(*source_cells)))
                    &&& index@.cells == present(array_items(*source_cells))
                    &&& index@.shape == shape_or_flat(
                        shape,
                        present(array_items(*source_cells)).len(),
                    )
                },
                Err(e) => if readable(array_items(*source_cells)) {
                    reports_unindexable(present(array_items(*source_cells)), e)
                } else {
                    reports_unreadable(array_items(*source_cells), e)
                },
            },
    {
        match CellRTree::create(source_cells) {
            Err(e) => Err(e),
            Ok(tree) => {
                let shape = flat_unless_given(shape, tree.size());
                Ok(RTree { tree, shape })
            },
        }
    }

    /// The number of cells.
    pub fn size(&self) -> (size: usize)
        ensures
            size == self@.cells.len(),
            all_indexable(self@.cells),
    {
        self.tree.size()
    }

    /// An estimate of the memory that the index takes, for planning: the
    /// storage of every cell's coordinates plus a fixed cost for each node.
    pub fn approximate_byte_size(&self) -> (size: usize)
        ensures
            size == if storage_bytes(self@.cells) <= usize::MAX {
                storage_bytes(self@.cells)
            } else {
                usize::MAX as nat
            },
    {
        self.tree.approximate_byte_size()
    }

    /// The logical shape of the grid that the cells come from.
    pub fn shape(&self) -> (shape: &Vec<usize>)
        ensures
            shape@ == self@.shape,
    {
        &self.shape
    }

    /// For each target polygon the cells that overlap it, as a sparse
    /// matrix viewed in the target's shape followed by the shape of the
    /// index. Null slots are dropped. Without a shape the targets are one
    /// axis as long as there are targets.
    ///
    /// Fails on the first slot that cannot be read, on the first target that
    /// cannot be answered, and where the final shape does not hold exactly
    /// one element per pair of target and cell.
    pub fn query_overlap(&self, target_cells: &PolygonArray, shape: Option<Vec<usize>>) -> (outcome:
        Result<SparseMatrix, IndexError>)
        ensures
            self.is_query_outcome(*target_cells, shape, outcome),
    {
        let columns = self.tree.size();
        let ghost queries = present(array_items(*target_cells));
        match self.tree.overlaps(target_cells) {
            Err(e) => Err(e),
            Ok(rows) => {
                let count = rows.len();
                let target_shape = flat_unless_given(shape, count);
                let final_shape = joined(&target_shape, &self.shape);
                proof {
                    assert forall|k: int, j: int|
                        0 <= k < rows@.len() && 0 <= j < rows@[k]@.len() implies #[trigger] rows@[k]@[j]
                        < columns by {
                        lemma_match_list_in_range(rows@[k]@, self@.cells, queries[k]);
                    }
                }
                let ghost listed = rows@;
                match rows.into_sparse((count, columns), final_shape) {
                    Ok(matrix) => {
                        proof {
                            assert forall|k: int| 0 <= k < queries.len() implies is_match_list(
                                #[trigger] matrix@.row(k),
                                self@.cells,
                                queries[k],
                            ) by {
                                assert(matrix@.row(k) == listed[k]@);
                            }
                        }
                        Ok(matrix)
                    },
                    Err(e) => Err(e),
                }
            },
        }
    }

    /// What `query_overlap` returns for the targets and the shape.
    pub open spec fn is_query_outcome(
        &self,
        targets: PolygonArray,
        shape: Option<Vec<usize>>,
        outcome: Result<SparseMatrix, IndexError>,
    ) -> bool {
        let queries = present(array_items(targets));
        let final_shape = shape_or_flat(shape, queries.len()) + self@.shape;
        match outcome {
            Ok(matrix) => {
                &&& readable(array_items(targets))
                &&& all_answerable(self@.cells, queries)
                &&& element_count(final_shape) == queries.len() * self@.cells.len()
                &&& is_answer(matrix@, self@.cells, queries, final_shape)
            },
            Err(e) => if !readable(array_items(targets)) {
                reports_unreadable(array_items(targets), e)
            } else if !all_answerable(self@.cells, queries) {
                reports_first_fault(self@.cells, queries, e)
            } else {
                is_shape_failure(e, queries.len(), self@.cells.len(), final_shape)
            },
        }
    }

    /// Queries in the mode that `method` names; without a name, in the
    /// overlap mode.
    ///
    /// Fails on a name that is not known, before anything is searched, and
    /// as the query of that mode fails.
    pub fn query(
        &self,
        target_cells: &PolygonArray,
        shape: Option<Vec<usize>>,
        method: Option<&str>,
    ) -> (outcome: Result<SparseMatrix, IndexError>)
        ensures
            match method {
                Some(name) if name@ != "overlaps"@ => {
                    &&& outcome matches Err(IndexError::UnknownMode { name: unknown })
                    &&& unknown@ == name@
                },
                _ => self.is_query_outcome(*target_cells, shape, outcome),
            },
    {
        match QueryMode::try_from(method) {
            Err(e) => Err(e),
            Ok(QueryMode::Overlaps) => self.query_overlap(target_cells, shape),
        }
    }

    /// The state of the index as bytes: every cell's polygon and the shape.
    ///
    /// What is returned restores to an index with the same cells and shape.
    pub fn export_state(&self) -> (outcome: Result<Vec<u8>, IndexError>)
        ensures
            match outcome {
                Ok(bytes) => is_export(self@, bytes@),
                Err(IndexError::Serialization { reason }) => {
                    &&& encoding(self@.cells, self@.shape) matches Err(failure)
                    &&& reason@ == codec_failure_text(failure)
                },
                Err(_) => false,
            },
    {
        match self.tree.encode_state(&self.shape) {
            Ok(bytes) => Ok(bytes),
            Err(failure) => Err(IndexError::Serialization { reason: describe_failure(&failure) }),
        }
    }

    /// Replaces the whole state by the one that `state` holds. The buffer is
    /// decoded and checked to the end first; where that fails, the index is
    /// left as it was.
    pub fn restore_state(&mut self, state: &[u8]) -> (outcome: Result<(), IndexError>)
        ensures
            match outcome {
                Ok(()) => restored(state@) == Some(final(self)@),
                Err(e) => {
                    &&& restored(state@) is None
                    &&& *final(self) == *old(self)
                    &&& is_restore_failure(state@, e)
                },
            },
    {
        match decode(state) {
            Err(failure) => Err(IndexError::Serialization { reason: describe_failure(&failure) }),
            Ok((cells, shape)) => match CellRTree::from_geometries(cells) {
                Err(cause) => Err(IndexError::Serialization { reason: cause.message() }),
                Ok(tree) => {
                    self.tree = tree;
                    self.shape = shape;
                    Ok(())
                },
            },
        }
    }
}

/// The given shape, or a single axis of `count` places.
fn flat_unless_given(shape: Option<Vec<usize>>, count: usize) -> (chosen: Vec<usize>)
    ensures
        chosen@ == shape_or_flat(shape, count as nat),
{
    match shape {
        Some(given) => given,
        None => {
            let mut flat: Vec<usize> = Vec::new();
            flat.push(count);
            assert(flat@ =~= seq![count]);
            flat
        },
    }
}

/// The extents of `outer` followed by those of `inner`.
fn joined(outer: &Vec<usize>, inner: &Vec<usize>) -> (whole: Vec<usize>)
    ensures
        whole@ == outer@ + inner@,
{
    let mut whole: Vec<usize> = Vec::new();
    let mut d: usize = 0;
    while d < outer.len()
        invariant
            d <= outer@.len(),
            whole@ == outer@.take(d as int),
        decreases outer@.len() - d,
    {
        whole.push(outer[d]);
        assert(outer@.take(d + 1) =~= outer@.take(d as int).push(outer@[d as int]));
        d = d + 1;
    }
    assert(outer@.take(outer@.len() as int) =~= outer@);
    let mut d: usize = 0;
    while d < inner.len()
        invariant
            d <= inner@.len(),
            whole@ == outer@ + inner@.take(d as int),
        decreases inner@.len() - d,
    {
        whole.push(inner[d]);
        assert(outer@ + inner@.take(d + 1) =~= (outer@ + inner@.take(d as int)).push(
            inner@[d as int],
        ));
        d = d + 1;
    }
    assert(inner@.take(inner@.len() as int) =~= inner@);
    whole
}

/// Where an answer is viewed in the shape of the targets followed by the
/// shape of the index, it has one element for each pair of a target and a
/// cell, and the element at a target's position followed by a cell's
/// position tells whether that target overlaps that cell.
pub proof fn lemma_answer_at(
    matrix: SparseView,
    cells: Seq<Geometry>,
    queries: Seq<Geometry>,
    target_shape: Seq<usize>,
    index_shape: Seq<usize>,
    target_position: Seq<usize>,
    cell_position: Seq<usize>,
)
    requires
        is_answer(matrix, cells, queries, target_shape + index_shape),
        element_count(target_shape) == queries.len(),
        element_count(index_shape) == cells.len(),
        in_bounds(target_position, target_shape),
        in_bounds(cell_position, index_shape),
    ensures
        element_count(target_shape + index_shape) == queries.len() * cells.len(),
        linear_index(target_position, target_shape) < queries.len(),
        linear_index(cell_position, index_shape) < cells.len(),
        matrix.at(target_position + cell_position) == overlapping(
            queries[linear_index(target_position, target_shape) as int],
            cells[linear_index(cell_position, index_shape) as int],
        ),
{
    lemma_count_concat(target_shape, index_shape);
    lemma_reshape_keeps_matches(
        matrix,
        target_shape,
        index_shape,
        target_position,
        cell_position,
    );
    let q = linear_index(target_position, target_shape) as int;
    let c = linear_index(cell_position, index_shape) as usize;
    assert(is_match_list(matrix.row(q), cells, queries[q]));
    assert(matrix.row(q).contains(c) <==> (c < cells.len() && overlapping(
        queries[q],
        cells[c as int],
    )));
}

/// On the empty index a query without a shape, whose targets can all be
/// read and are valid, succeeds: the answer has one row for each target, no
/// column, and no match in any row.
pub proof fn lemma_empty_index_answers(
    index: RTree,
    targets: PolygonArray,
    outcome: Result<SparseMatrix, IndexError>,
)
    requires
        index@ == (RTreeView { cells: Seq::empty(), shape: seq![0usize] }),
        readable(array_items(targets)),
        all_valid(present(array_items(targets))),
        index.is_query_outcome(targets, None, outcome),
    ensures
        outcome matches Ok(matrix),
        outcome->Ok_0@.rows() == present(array_items(targets)).len(),
        outcome->Ok_0@.columns == 0,
        outcome->Ok_0@.indices.len() == 0,
{
    let queries = present(array_items(targets));
    let final_shape = seq![queries.len() as usize] + seq![0usize];
    assert(all_answerable(index@.cells, queries));
    assert(final_shape[1] == 0);
    crate::shape::lemma_count_zero(final_shape);
    assert(queries.len() * 0 == 0) by (nonlinear_arith);
    if let Ok(matrix) = outcome {
        let m = matrix@;
        assert(m.indices.len() == 0) by {
            if m.indices.len() > 0 {
                assert(m.indices[0] < m.columns);
            }
        }
    }
}

/// Restoring an exported state into any index succeeds and yields the index
/// that was exported: the same cells under the same identities, and the same
/// shape. The contracts of the queries speak of nothing else, so the
/// restored index answers every query as the exported one does. That the
/// codec reads back what it wrote is taken from the codec.
pub proof fn lemma_round_trip(index: RTreeView, bytes: Seq<u8>)
    requires
        all_indexable(index.cells),
        is_export(index, bytes),
    ensures
        restored(bytes) == Some(index),
{
}

} // verus!
