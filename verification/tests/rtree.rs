use geo::{Coord, LineString, Polygon, Rect};
use geoarrow_array::array::PolygonArray;
use geoarrow_array::builder::PolygonBuilder;
use geoarrow_schema::{Dimension, PolygonType};
use grid_indexing::cell::NumberedCell;
use grid_indexing::error::{IndexError, Role};
use grid_indexing::geometry::{Geometry, Relation};
use grid_indexing::index::CellRTree;
use grid_indexing::rtree::{create_empty, QueryMode, RTree};

fn square(x0: f64, y0: f64, x1: f64, y1: f64) -> Polygon {
    Rect::new(Coord { x: x0, y: y0 }, Coord { x: x1, y: y1 }).to_polygon()
}

fn ring(exterior: Vec<(f64, f64)>) -> Polygon {
    Polygon::new(LineString::from(exterior), vec![])
}

fn array(polygons: &[Polygon]) -> PolygonArray {
    PolygonBuilder::from_polygons(polygons, PolygonType::new(Dimension::XY, Default::default()))
        .finish()
}

fn nullable(polygons: &[Option<Polygon>]) -> PolygonArray {
    let mut builder = PolygonBuilder::new(PolygonType::new(Dimension::XY, Default::default()));
    for polygon in polygons {
        builder.push_polygon(polygon.as_ref()).unwrap();
    }
    builder.finish()
}

fn sorted(mut ids: Vec<usize>) -> Vec<usize> {
    ids.sort();
    ids
}

fn row(matrix: &grid_indexing::sparse::SparseMatrix, k: usize) -> Vec<usize> {
    let start = matrix.row_pointer()[k];
    let end = matrix.row_pointer()[k + 1];
    sorted(matrix.indices()[start..end].to_vec())
}

fn grid_2_by_3() -> Vec<Polygon> {
    let mut cells = Vec::new();
    for a in 0..2 {
        for b in 0..3 {
            cells.push(square(b as f64, a as f64, b as f64 + 1.0, a as f64 + 1.0));
        }
    }
    cells
}

fn bowtie() -> Polygon {
    ring(vec![(0.0, 0.0), (1.0, 1.0), (1.0, 0.0), (0.0, 1.0), (0.0, 0.0)])
}

#[test]
fn identities_follow_input_order() {
    let cells = array(&[
        square(0.0, 0.0, 1.0, 1.0),
        square(10.0, 0.0, 11.0, 1.0),
        square(20.0, 0.0, 21.0, 1.0),
    ]);
    let index = CellRTree::create(&cells).unwrap();
    assert_eq!(index.size(), 3);
    let queries = array(&[
        square(20.2, 0.2, 20.8, 0.8),
        square(0.2, 0.2, 0.8, 0.8),
        square(10.2, 0.2, 10.8, 0.8),
    ]);
    assert_eq!(index.overlaps(&queries).unwrap(), vec![vec![2], vec![0], vec![1]]);
}

#[test]
fn null_slots_are_dropped_and_identities_compact() {
    let cells = nullable(&[
        Some(square(0.0, 0.0, 1.0, 1.0)),
        None,
        Some(square(10.0, 0.0, 11.0, 1.0)),
    ]);
    let index = CellRTree::create(&cells).unwrap();
    assert_eq!(index.size(), 2);
    let queries = array(&[square(10.2, 0.2, 10.8, 0.8)]);
    assert_eq!(index.overlaps(&queries).unwrap(), vec![vec![1]]);
}

#[test]
fn boundary_contact_is_no_overlap() {
    let cells = array(&[square(0.0, 0.0, 1.0, 1.0), square(1.0, 0.0, 2.0, 1.0)]);
    let left = Geometry::from_array(&cells, 0).unwrap().unwrap();
    let right = Geometry::from_array(&cells, 1).unwrap().unwrap();
    assert_eq!(left.overlaps(&right), Ok(false));
    assert_eq!(right.overlaps(&left), Ok(false));
    let index = CellRTree::create(&array(&[square(0.0, 0.0, 1.0, 1.0)])).unwrap();
    assert_eq!(index.overlaps_one(&right).unwrap(), Vec::<usize>::new());
}

#[test]
fn interior_overlap_matches_both_ways() {
    let cells = array(&[square(0.0, 0.0, 1.0, 1.0), square(0.5, 0.5, 1.5, 1.5)]);
    let first = Geometry::from_array(&cells, 0).unwrap().unwrap();
    let second = Geometry::from_array(&cells, 1).unwrap().unwrap();
    assert_eq!(first.overlaps(&second), Ok(true));
    assert_eq!(second.overlaps(&first), Ok(true));
    let index = CellRTree::create(&array(&[square(0.0, 0.0, 1.0, 1.0)])).unwrap();
    assert_eq!(index.overlaps_one(&second).unwrap(), vec![0]);
}

#[test]
fn containment_is_overlap() {
    let cells = array(&[square(-90.0, -45.0, 90.0, 45.0), square(-1.0, -1.0, 1.0, 1.0)]);
    let outer = Geometry::from_array(&cells, 0).unwrap().unwrap();
    let inner = Geometry::from_array(&cells, 1).unwrap().unwrap();
    assert_eq!(outer.overlaps(&inner), Ok(true));
    assert_eq!(inner.overlaps(&outer), Ok(true));
}

#[test]
fn overlap_predicate_reads_both_facts() {
    assert!(Relation { intersects: true, touches: false }.is_overlap());
    assert!(!Relation { intersects: true, touches: true }.is_overlap());
    assert!(!Relation { intersects: false, touches: false }.is_overlap());
    assert!(!Relation { intersects: false, touches: true }.is_overlap());
}

#[test]
fn from_array_beyond_the_end_is_none() {
    let cells = nullable(&[Some(square(0.0, 0.0, 1.0, 1.0)), None]);
    assert!(Geometry::from_array(&cells, 0).unwrap().is_some());
    assert!(Geometry::from_array(&cells, 1).unwrap().is_none());
    assert!(Geometry::from_array(&cells, 2).unwrap().is_none());
}

#[test]
fn octagon_and_rectangle_scenario() {
    let octagon = ring(vec![
        (-5.0, 0.0),
        (-10.0, 5.0),
        (-10.0, 10.0),
        (-5.0, 15.0),
        (5.0, 15.0),
        (10.0, 10.0),
        (10.0, 5.0),
        (5.0, 0.0),
    ]);
    let rectangle = square(-90.0, -45.0, 90.0, 45.0);
    let index = CellRTree::create(&array(&[octagon, rectangle])).unwrap();
    let queries = array(&[square(-1.0, -1.0, 1.0, 1.0), square(1000.0, 1000.0, 1001.0, 1001.0)]);
    let rows = index.overlaps(&queries).unwrap();
    assert_eq!(rows.len(), 2);
    assert_eq!(sorted(rows[0].clone()), vec![0, 1]);
    assert_eq!(rows[1], Vec::<usize>::new());
}

#[test]
fn matches_agree_with_predicate_on_every_pair() {
    let cells = grid_2_by_3();
    let queries = vec![
        square(0.5, 0.5, 1.5, 1.5),
        square(2.2, 0.1, 2.9, 1.9),
        square(-3.0, -3.0, -2.0, -2.0),
        square(1.0, 1.0, 2.0, 2.0),
        ring(vec![(0.0, 0.0), (3.0, 2.0), (3.0, 1.9), (0.0, 0.0)]),
    ];
    let cell_array = array(&cells);
    let query_array = array(&queries);
    let index = CellRTree::create(&cell_array).unwrap();
    let rows = index.overlaps(&query_array).unwrap();
    assert_eq!(rows.len(), queries.len());
    for (q, found) in rows.iter().enumerate() {
        let query = Geometry::from_array(&query_array, q).unwrap().unwrap();
        let mut expected = Vec::new();
        for c in 0..cells.len() {
            let cell = Geometry::from_array(&cell_array, c).unwrap().unwrap();
            if query.overlaps(&cell).unwrap() {
                expected.push(c);
            }
        }
        assert_eq!(sorted(found.clone()), expected);
    }
}

#[test]
fn empty_index_matches_nothing() {
    let index = create_empty();
    assert_eq!(index.size(), 0);
    assert_eq!(index.shape(), &vec![0]);
    let queries = array(&[square(0.0, 0.0, 1.0, 1.0), square(5.0, 5.0, 6.0, 6.0)]);
    let rows = CellRTree::empty().overlaps(&queries).unwrap();
    assert_eq!(rows, vec![Vec::<usize>::new(), Vec::<usize>::new()]);
}

#[test]
fn empty_index_answers_queries_with_empty_rows() {
    let index = create_empty();
    let queries = array(&[
        square(0.0, 0.0, 1.0, 1.0),
        square(5.0, 5.0, 6.0, 6.0),
        square(-3.0, 0.0, -2.0, 1.0),
    ]);
    let matrix = index.query_overlap(&queries, None).unwrap();
    assert_eq!(matrix.rows(), 3);
    assert_eq!(matrix.columns(), 0);
    assert_eq!(matrix.shape(), &vec![3, 0]);
    assert_eq!(matrix.row_pointer(), &vec![0, 0, 0, 0]);
    assert_eq!(matrix.indices(), &Vec::<usize>::new());
    assert_eq!(matrix.data(), &Vec::<bool>::new());
    let by_mode = index.query(&queries, None, Some("overlaps")).unwrap();
    assert_eq!(by_mode.row_pointer(), &vec![0, 0, 0, 0]);
}

#[test]
fn invalid_cell_is_indexed_and_fails_only_where_evaluated() {
    let mut shifted = bowtie();
    shifted.exterior_mut(|ring| {
        for coordinate in ring.0.iter_mut() {
            coordinate.x += 10.0;
        }
    });
    let cells = array(&[square(0.0, 0.0, 1.0, 1.0), shifted, square(20.0, 0.0, 21.0, 1.0)]);
    let index = CellRTree::create(&cells).unwrap();
    assert_eq!(index.size(), 3);
    let rtree = RTree::new(&cells, None).unwrap();
    assert_eq!(rtree.shape(), &vec![3]);

    // targets whose envelope stays clear of the invalid cell are answered
    let clear = array(&[square(0.2, 0.2, 0.8, 0.8), square(20.2, 0.2, 20.8, 0.8)]);
    assert_eq!(index.overlaps(&clear).unwrap(), vec![vec![0], vec![2]]);

    // a target whose envelope meets it is an error that names the cell
    let near = array(&[square(0.2, 0.2, 0.8, 0.8), square(10.2, 0.2, 10.8, 0.8)]);
    let error = index.overlaps(&near).unwrap_err();
    assert_eq!(
        error,
        IndexError::Geometry {
            role: Role::Cell,
            position: 1,
            reason: "exterior ring has a self-intersection".to_string()
        }
    );
    assert_eq!(
        error.message(),
        "invalid cell geometry at position 1: exterior ring has a self-intersection"
    );
    assert_eq!(rtree.query_overlap(&near, None).unwrap_err(), error);
}

#[test]
fn least_invalid_cell_is_reported() {
    let cells = array(&[bowtie(), square(0.0, 0.0, 1.0, 1.0), bowtie(), bowtie()]);
    let index = CellRTree::create(&cells).unwrap();
    let target = Geometry::from_array(&array(&[square(0.2, 0.2, 0.8, 0.8)]), 0).unwrap().unwrap();
    match index.overlaps_one(&target).unwrap_err() {
        IndexError::Geometry { role, position, .. } => {
            assert_eq!(role, Role::Cell);
            assert_eq!(position, 0);
        }
        other => panic!("unexpected error {:?}", other),
    }
}

#[test]
fn invalid_query_is_an_error_not_a_miss() {
    let index = CellRTree::create(&array(&[square(0.0, 0.0, 1.0, 1.0)])).unwrap();
    let queries = array(&[square(0.2, 0.2, 0.8, 0.8), bowtie()]);
    let error = index.overlaps(&queries).unwrap_err();
    assert_eq!(
        error,
        IndexError::Geometry {
            role: Role::Target,
            position: 1,
            reason: "exterior ring has a self-intersection".to_string()
        }
    );
    assert_eq!(
        error.message(),
        "invalid target geometry at position 1: exterior ring has a self-intersection"
    );
    let degenerate = array(&[ring(vec![(0.0, 0.0), (1.0, 1.0)])]);
    let query = Geometry::from_array(&degenerate, 0).unwrap().unwrap();
    match index.overlaps_one(&query).unwrap_err() {
        IndexError::Geometry { role, position, reason } => {
            assert_eq!(role, Role::Target);
            assert_eq!(position, 0);
            assert_eq!(reason, "exterior ring must have at least 3 distinct points");
        }
        other => panic!("unexpected error {:?}", other),
    }
    assert!(query.check(Role::Target, 3).is_err());
    assert_eq!(
        query.inspect(),
        Some("exterior ring must have at least 3 distinct points".to_string())
    );
    // an invalid target is an error even where no cell is near
    let far = array(&[ring(vec![(50.0, 50.0), (51.0, 51.0)])]);
    assert!(index.overlaps(&far).is_err());
}

#[test]
fn non_finite_coordinate_fails_construction() {
    let cells = array(&[
        square(0.0, 0.0, 1.0, 1.0),
        ring(vec![(0.0, 0.0), (1.0, 0.0), (1.0, f64::NAN), (0.0, 0.0)]),
    ]);
    let error = CellRTree::create(&cells).unwrap_err();
    assert_eq!(
        error,
        IndexError::Geometry {
            role: Role::Cell,
            position: 1,
            reason: "a coordinate is not finite".to_string()
        }
    );
    assert!(RTree::new(&cells, None).is_err());
    let infinite = array(&[ring(vec![(0.0, 0.0), (f64::INFINITY, 0.0), (1.0, 1.0), (0.0, 0.0)])]);
    assert!(CellRTree::create(&infinite).is_err());
    let polygon = Geometry::from_array(&cells, 1).unwrap().unwrap();
    assert!(!polygon.has_finite_coordinates());
    assert!(Geometry::from_array(&cells, 0).unwrap().unwrap().has_finite_coordinates());
}

#[test]
fn non_finite_hole_is_rejected_though_geo_calls_the_polygon_valid() {
    let holed = Polygon::new(
        LineString::from(Vec::<(f64, f64)>::new()),
        vec![LineString::from(vec![(1.0, 1.0), (2.0, f64::NAN), (2.0, 2.0), (1.0, 1.0)])],
    );
    let bytes = bincode::serialize(&(vec![holed], vec![1usize])).unwrap();
    let mut index = create_empty();
    assert_eq!(
        index.restore_state(&bytes),
        Err(IndexError::Serialization {
            reason: "invalid cell geometry at position 0: a coordinate is not finite".to_string()
        })
    );
}

#[test]
fn query_mode_names() {
    assert_eq!(QueryMode::try_from(None), Ok(QueryMode::Overlaps));
    assert_eq!(QueryMode::try_from(Some("overlaps")), Ok(QueryMode::Overlaps));
    let error = QueryMode::try_from(Some("contains")).unwrap_err();
    assert_eq!(error, IndexError::UnknownMode { name: "contains".to_string() });
    assert_eq!(error.message(), "Unknown query mode: contains");
    assert!(QueryMode::try_from(Some("Overlaps")).is_err());
    assert!(QueryMode::try_from(Some("")).is_err());
}

#[test]
fn new_defaults_shape_to_flat() {
    let cells = array(&grid_2_by_3());
    let index = RTree::new(&cells, None).unwrap();
    assert_eq!(index.size(), 6);
    assert_eq!(index.shape(), &vec![6]);
    let index = RTree::new(&cells, Some(vec![2, 3])).unwrap();
    assert_eq!(index.shape(), &vec![2, 3]);
}

#[test]
fn query_overlap_reshapes_to_grid() {
    let cells = array(&grid_2_by_3());
    let index = RTree::new(&cells, Some(vec![2, 3])).unwrap();
    let queries = array(&[
        square(0.2, 0.2, 0.8, 0.8),
        square(0.5, 0.5, 1.5, 1.5),
        square(10.0, 10.0, 11.0, 11.0),
        square(2.1, 1.1, 2.9, 1.9),
    ]);
    let matrix = index.query_overlap(&queries, Some(vec![4])).unwrap();
    assert_eq!(matrix.shape(), &vec![4, 2, 3]);
    assert_eq!(matrix.rows(), 4);
    assert_eq!(matrix.columns(), 6);
    let flat = index.query_overlap(&queries, None).unwrap();
    assert_eq!(flat.shape(), &vec![4, 2, 3]);
    let expected: Vec<Vec<usize>> = vec![vec![0], vec![0, 1, 3, 4], vec![], vec![5]];
    let mut trues = 0;
    for q in 0..4 {
        assert_eq!(row(&matrix, q), expected[q]);
        for a in 0..2 {
            for b in 0..3 {
                let value = matrix.get(&[q, a, b]).unwrap();
                assert_eq!(value, expected[q].contains(&(a * 3 + b)));
                trues += value as usize;
            }
        }
    }
    assert_eq!(trues, 6);
    assert_eq!(matrix.data(), &vec![true; 6]);
    assert_eq!(matrix.row_pointer(), &vec![0, 1, 5, 5, 6]);
}

#[test]
fn query_overlap_with_two_dimensional_targets() {
    let cells = array(&grid_2_by_3());
    let index = RTree::new(&cells, Some(vec![2, 3])).unwrap();
    let queries = array(&[
        square(0.2, 0.2, 0.8, 0.8),
        square(1.2, 0.2, 1.8, 0.8),
        square(0.2, 1.2, 0.8, 1.8),
        square(1.2, 1.2, 1.8, 1.8),
    ]);
    let matrix = index.query_overlap(&queries, Some(vec![2, 2])).unwrap();
    assert_eq!(matrix.shape(), &vec![2, 2, 2, 3]);
    assert_eq!(matrix.get(&[0, 0, 0, 0]), Some(true));
    assert_eq!(matrix.get(&[0, 1, 0, 1]), Some(true));
    assert_eq!(matrix.get(&[1, 0, 1, 0]), Some(true));
    assert_eq!(matrix.get(&[1, 1, 1, 1]), Some(true));
    assert_eq!(matrix.get(&[1, 1, 0, 0]), Some(false));
}

#[test]
fn query_overlap_rejects_shape_of_another_size() {
    let cells = array(&grid_2_by_3());
    let index = RTree::new(&cells, Some(vec![2, 3])).unwrap();
    let queries = array(&[square(0.2, 0.2, 0.8, 0.8), square(0.5, 0.5, 1.5, 1.5)]);
    let error = index.query_overlap(&queries, Some(vec![3])).unwrap_err();
    assert_eq!(error, IndexError::Reshape { requested: vec![3, 2, 3], rows: 2, columns: 6 });
    assert_eq!(error.message(), "cannot reshape array of size 12 into shape (3, 2, 3)");
    let mismatched = RTree::new(&cells, Some(vec![5])).unwrap();
    assert!(mismatched.query_overlap(&queries, None).is_err());
}

#[test]
fn query_overlap_drops_null_targets() {
    let cells = array(&grid_2_by_3());
    let index = RTree::new(&cells, None).unwrap();
    let queries = nullable(&[Some(square(0.2, 0.2, 0.8, 0.8)), None, Some(square(2.1, 1.1, 2.9, 1.9))]);
    let matrix = index.query_overlap(&queries, None).unwrap();
    assert_eq!(matrix.shape(), &vec![2, 6]);
    assert_eq!(row(&matrix, 0), vec![0]);
    assert_eq!(row(&matrix, 1), vec![5]);
    // a shape given for all slots no longer fits the targets that are present
    let error = index.query_overlap(&queries, Some(vec![3])).unwrap_err();
    assert_eq!(error, IndexError::Reshape { requested: vec![3, 6], rows: 2, columns: 6 });
}

#[test]
fn new_without_shape_counts_cells_that_are_present() {
    let cells = nullable(&[Some(square(0.0, 0.0, 1.0, 1.0)), None, Some(square(5.0, 0.0, 6.0, 1.0))]);
    let index = RTree::new(&cells, None).unwrap();
    assert_eq!(index.size(), 2);
    assert_eq!(index.shape(), &vec![2]);
    let queries = array(&[square(5.2, 0.2, 5.8, 0.8)]);
    let matrix = index.query_overlap(&queries, None).unwrap();
    assert_eq!(matrix.shape(), &vec![1, 2]);
    assert_eq!(matrix.get(&[0, 1]), Some(true));
    assert_eq!(matrix.get(&[0, 0]), Some(false));
}

#[test]
fn query_dispatches_on_mode() {
    let cells = array(&grid_2_by_3());
    let index = RTree::new(&cells, Some(vec![2, 3])).unwrap();
    let queries = array(&[square(0.5, 0.5, 1.5, 1.5)]);
    let by_default = index.query(&queries, None, None).unwrap();
    let by_name = index.query(&queries, None, Some("overlaps")).unwrap();
    assert_eq!(row(&by_default, 0), vec![0, 1, 3, 4]);
    assert_eq!(row(&by_name, 0), vec![0, 1, 3, 4]);
    let error = index.query(&queries, None, Some("nearest")).unwrap_err();
    assert_eq!(error, IndexError::UnknownMode { name: "nearest".to_string() });
}

#[test]
fn state_round_trip_keeps_query_results() {
    let cells = array(&grid_2_by_3());
    let index = RTree::new(&cells, Some(vec![2, 3])).unwrap();
    let queries = array(&[
        square(0.5, 0.5, 1.5, 1.5),
        square(2.1, 1.1, 2.9, 1.9),
        square(-5.0, -5.0, -4.0, -4.0),
    ]);
    let bytes = index.export_state().unwrap();
    let mut restored = create_empty();
    assert_eq!(restored.restore_state(&bytes), Ok(()));
    assert_eq!(restored.size(), 6);
    assert_eq!(restored.shape(), &vec![2, 3]);
    let before = index.query_overlap(&queries, None).unwrap();
    let after = restored.query_overlap(&queries, None).unwrap();
    assert_eq!(after.shape(), before.shape());
    assert_eq!(after.row_pointer(), before.row_pointer());
    for q in 0..3 {
        assert_eq!(row(&after, q), row(&before, q));
    }
    assert_eq!(restored.export_state().unwrap(), bytes);
}

#[test]
fn empty_index_round_trips() {
    let bytes = create_empty().export_state().unwrap();
    let cells = array(&grid_2_by_3());
    let mut target = RTree::new(&cells, None).unwrap();
    assert_eq!(target.restore_state(&bytes), Ok(()));
    assert_eq!(target.size(), 0);
    assert_eq!(target.shape(), &vec![0]);
}

#[test]
fn failed_restore_leaves_index_unchanged() {
    let cells = array(&grid_2_by_3());
    let mut index = RTree::new(&cells, Some(vec![2, 3])).unwrap();
    let good = index.export_state().unwrap();
    let truncated = &good[..good.len() / 2];
    match index.restore_state(truncated).unwrap_err() {
        IndexError::Serialization { reason } => assert!(!reason.is_empty()),
        other => panic!("unexpected error {:?}", other),
    }
    assert_eq!(
        index.restore_state(&[]),
        Err(IndexError::Serialization {
            reason: "io error: unexpected end of file".to_string()
        })
    );
    assert_eq!(index.size(), 6);
    assert_eq!(index.shape(), &vec![2, 3]);
    assert_eq!(index.export_state().unwrap(), good);
    let queries = array(&[square(0.5, 0.5, 1.5, 1.5)]);
    assert_eq!(row(&index.query_overlap(&queries, None).unwrap(), 0), vec![0, 1, 3, 4]);
}

#[test]
fn restore_rejects_non_finite_polygon_in_buffer() {
    let rings: Vec<Polygon> = vec![
        square(0.0, 0.0, 1.0, 1.0),
        ring(vec![(0.0, 0.0), (1.0, f64::NAN), (1.0, 1.0), (0.0, 0.0)]),
    ];
    let shape: Vec<usize> = vec![2];
    let bytes = bincode::serialize(&(rings, shape)).unwrap();
    let mut index = create_empty();
    let error = index.restore_state(&bytes).unwrap_err();
    assert_eq!(
        error,
        IndexError::Serialization {
            reason: "invalid cell geometry at position 1: a coordinate is not finite".to_string()
        }
    );
    assert_eq!(index.size(), 0);
    assert_eq!(index.shape(), &vec![0]);
}

#[test]
fn restore_keeps_invalid_polygon_for_evaluation() {
    let rings: Vec<Polygon> = vec![square(0.0, 0.0, 1.0, 1.0), bowtie()];
    let shape: Vec<usize> = vec![2];
    let bytes = bincode::serialize(&(rings, shape)).unwrap();
    let mut index = create_empty();
    assert_eq!(index.restore_state(&bytes), Ok(()));
    assert_eq!(index.size(), 2);
    let queries = array(&[square(0.2, 0.2, 0.8, 0.8)]);
    match index.query_overlap(&queries, None).unwrap_err() {
        IndexError::Geometry { role, position, .. } => {
            assert_eq!(role, Role::Cell);
            assert_eq!(position, 1);
        }
        other => panic!("unexpected error {:?}", other),
    }
}

#[test]
fn open_ring_in_buffer_is_kept_open_and_reported() {
    // a polygon is written as its exterior ring followed by its holes
    let open = LineString::from(vec![(0.0, 0.0), (4.0, 0.0), (4.0, 4.0), (0.0, 4.0)]);
    let rings = vec![(open, Vec::<LineString>::new())];
    let shape: Vec<usize> = vec![1];
    let bytes = bincode::serialize(&(rings, shape)).unwrap();
    let mut index = create_empty();
    assert_eq!(index.restore_state(&bytes), Ok(()));
    // four coordinates were read and four are kept
    assert_eq!(index.approximate_byte_size(), 4 * 16 + 40);
    assert_eq!(index.export_state().unwrap(), bytes);
    let queries = array(&[square(1.0, 1.0, 2.0, 2.0)]);
    assert_eq!(
        index.query_overlap(&queries, None).unwrap_err(),
        IndexError::Geometry {
            role: Role::Cell,
            position: 0,
            reason: "a ring is not closed".to_string()
        }
    );
}

#[test]
fn round_trip_keeps_every_coordinate() {
    let no_exterior = Polygon::new(
        LineString::from(Vec::<(f64, f64)>::new()),
        vec![LineString::from(vec![(1.0, 1.0), (2.0, 1.0), (2.0, 2.0), (1.0, 1.0)])],
    );
    let rings: Vec<Polygon> = vec![square(0.0, 0.0, 1.0, 1.0), no_exterior, bowtie()];
    let bytes = bincode::serialize(&(rings, vec![3usize])).unwrap();
    let mut index = create_empty();
    assert_eq!(index.restore_state(&bytes), Ok(()));
    assert_eq!(index.approximate_byte_size(), (5 + 4 + 5) * 16 + 3 * 40);
    let exported = index.export_state().unwrap();
    assert_eq!(exported, bytes);
    let mut restored = create_empty();
    assert_eq!(restored.restore_state(&exported), Ok(()));
    assert_eq!(restored.size(), index.size());
    assert_eq!(restored.shape(), index.shape());
    assert_eq!(restored.approximate_byte_size(), index.approximate_byte_size());
}

#[test]
fn overlaps_each_answers_in_order() {
    let cells = array(&grid_2_by_3());
    let index = CellRTree::create(&cells).unwrap();
    let queries = array(&[square(2.1, 1.1, 2.9, 1.9), square(0.2, 0.2, 0.8, 0.8)]);
    let targets = vec![
        Geometry::from_array(&queries, 0).unwrap().unwrap(),
        Geometry::from_array(&queries, 1).unwrap().unwrap(),
    ];
    assert_eq!(index.overlaps_each(&targets).unwrap(), vec![vec![5], vec![0]]);
    assert_eq!(index.overlaps_each(&Vec::new()).unwrap(), Vec::<Vec<usize>>::new());
}

#[test]
fn from_geometries_numbers_in_order() {
    let cells = array(&[square(0.0, 0.0, 1.0, 1.0), square(5.0, 5.0, 6.0, 6.0)]);
    let geometries = vec![
        Geometry::from_array(&cells, 1).unwrap().unwrap(),
        Geometry::from_array(&cells, 0).unwrap().unwrap(),
    ];
    let index = CellRTree::from_geometries(geometries).unwrap();
    let query = Geometry::from_array(&array(&[square(5.2, 5.2, 5.8, 5.8)]), 0).unwrap().unwrap();
    assert_eq!(index.overlaps_one(&query).unwrap(), vec![0]);
}

#[test]
fn large_index_finds_all_matches() {
    let mut cells = Vec::new();
    for a in 0..30 {
        for b in 0..30 {
            cells.push(square(b as f64, a as f64, b as f64 + 1.0, a as f64 + 1.0));
        }
    }
    let index = CellRTree::create(&array(&cells)).unwrap();
    assert_eq!(index.size(), 900);
    let query = Geometry::from_array(&array(&[square(9.5, 19.5, 11.5, 21.5)]), 0).unwrap().unwrap();
    let found = sorted(index.overlaps_one(&query).unwrap());
    let mut expected = Vec::new();
    for a in 19..22 {
        for b in 9..12 {
            expected.push(a * 30 + b);
        }
    }
    assert_eq!(found, expected);
}

#[test]
fn approximate_byte_size_counts_coordinates_and_nodes() {
    assert_eq!(create_empty().approximate_byte_size(), 0);
    let cells = array(&grid_2_by_3());
    let index = RTree::new(&cells, None).unwrap();
    // each square has a closed ring of 5 coordinates
    assert_eq!(index.approximate_byte_size(), 6 * (5 * 16 + 40));
    let holed = Polygon::new(
        LineString::from(vec![(0.0, 0.0), (4.0, 0.0), (4.0, 4.0), (0.0, 4.0), (0.0, 0.0)]),
        vec![LineString::from(vec![(1.0, 1.0), (2.0, 1.0), (2.0, 2.0), (1.0, 1.0)])],
    );
    let index = CellRTree::create(&array(&[holed])).unwrap();
    assert_eq!(index.approximate_byte_size(), 9 * 16 + 40);
}

#[test]
fn numbered_cell_keeps_identity_and_polygon() {
    let cells = array(&[square(0.0, 0.0, 1.0, 1.0), square(0.5, 0.5, 1.5, 1.5)]);
    let cell = NumberedCell::new(7, Geometry::from_array(&cells, 1).unwrap().unwrap());
    assert_eq!(cell.index(), 7);
    let other = Geometry::from_array(&cells, 0).unwrap().unwrap();
    assert_eq!(cell.geometry().overlaps(&other), Ok(true));
}
