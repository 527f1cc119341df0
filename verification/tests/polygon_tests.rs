use upolygon::geometry::{Error, Extents, Point};
use upolygon::polygon::{ComplexPolygon, Polygon};

fn pts(coords: &[(i64, i64)]) -> Vec<Point> {
    coords.iter().map(|c| Point::new(c.0, c.1)).collect()
}

#[test]
fn polygon_new_refuses_an_empty_ring() {
    assert!(matches!(Polygon::new(Vec::new()), Err(Error::InvalidArgument)));
}

#[test]
fn polygon_new_computes_extents_and_validity() {
    let open = Polygon::new(pts(&[(1, 5), (4, -2), (3, 7)])).unwrap();
    assert!(!open.valid());
    assert!(!open.shifted());
    assert_eq!(open.offset(), Point::new(0, 0));
    assert_eq!(open.extents(), Extents { min_x: 1, min_y: -2, max_x: 4, max_y: 7 });
    assert_eq!(open.points(), &pts(&[(1, 5), (4, -2), (3, 7)]));
    let closed = Polygon::new(pts(&[(0, 0), (2, 0), (0, 0)])).unwrap();
    assert!(closed.valid());
    let single = Polygon::new(pts(&[(7, 7)])).unwrap();
    assert!(single.valid());
    assert_eq!(single.extents(), Extents { min_x: 7, min_y: 7, max_x: 7, max_y: 7 });
}

#[test]
fn polygon_get_extents_scans_min_and_max() {
    assert_eq!(
        Polygon::get_extents(&pts(&[(3, 3), (-5, 9), (0, -1)])),
        Extents { min_x: -5, min_y: -1, max_x: 3, max_y: 9 }
    );
    assert_eq!(
        Polygon::get_extents(&Vec::new()),
        Extents { min_x: i64::MAX, min_y: i64::MAX, max_x: i64::MIN, max_y: i64::MIN }
    );
}

#[test]
fn polygon_close_appends_the_first_point_once() {
    let mut p = Polygon::new(pts(&[(0, 0), (3, 0), (3, 3)])).unwrap();
    p.close();
    assert!(p.valid());
    assert_eq!(p.points(), &pts(&[(0, 0), (3, 0), (3, 3), (0, 0)]));
    assert_eq!(p.extents(), Extents { min_x: 0, min_y: 0, max_x: 3, max_y: 3 });
    p.close();
    assert_eq!(p.points(), &pts(&[(0, 0), (3, 0), (3, 3), (0, 0)]));
}

#[test]
fn polygon_shift_moves_points_extents_and_offset() {
    let mut p = Polygon::new(pts(&[(0, 0), (3, 0), (3, 3), (0, 0)])).unwrap();
    assert_eq!(p.shift(2, -1), Ok(()));
    assert_eq!(p.points(), &pts(&[(2, -1), (5, -1), (5, 2), (2, -1)]));
    assert_eq!(p.extents(), Extents { min_x: 2, min_y: -1, max_x: 5, max_y: 2 });
    assert_eq!(p.offset(), Point::new(2, -1));
    assert!(p.shifted());
    assert!(p.valid());
    assert_eq!(p.shift(-2, 1), Ok(()));
    assert!(!p.shifted());
    assert_eq!(p.offset(), Point::new(0, 0));
    assert_eq!(p.points(), &pts(&[(0, 0), (3, 0), (3, 3), (0, 0)]));
}

#[test]
fn polygon_shift_refuses_overflow_and_changes_nothing() {
    let mut p = Polygon::new(pts(&[(i64::MAX - 1, 0), (0, 0)])).unwrap();
    assert!(!p.can_shift(2, 0));
    assert!(p.can_shift(1, 0));
    assert_eq!(p.shift(2, 0), Err(Error::InvalidArgument));
    assert_eq!(p.points(), &pts(&[(i64::MAX - 1, 0), (0, 0)]));
    assert_eq!(p.extents(), Extents { min_x: 0, min_y: 0, max_x: i64::MAX - 1, max_y: 0 });
    assert!(!p.shifted());
}

#[test]
fn polygon_shift_then_correct_restores_the_ring() {
    let given = pts(&[(4, 4), (9, 4), (9, 8), (4, 4)]);
    let mut p = Polygon::new(given.clone()).unwrap();
    let extents = p.extents();
    p.shift(-17, 23).unwrap();
    p.correct();
    assert_eq!(p.points(), &given);
    assert_eq!(p.extents(), extents);
    assert!(!p.shifted());
    assert_eq!(p.offset(), Point::new(0, 0));
}

#[test]
fn polygon_correct_undoes_several_shifts_in_one_step() {
    let given = pts(&[(1, 1), (2, 5)]);
    let mut p = Polygon::new(given.clone()).unwrap();
    p.shift(3, 3).unwrap();
    p.shift(-10, 4).unwrap();
    p.shift(1, 1).unwrap();
    assert_eq!(p.offset(), Point::new(-6, 8));
    p.correct();
    assert_eq!(p.points(), &given);
    assert!(!p.shifted());
    p.correct();
    assert_eq!(p.points(), &given);
}

#[test]
fn polygon_correct_works_at_the_edge_of_the_range() {
    let mut p = Polygon::new(pts(&[(i64::MAX, i64::MAX)])).unwrap();
    p.shift(i64::MIN, i64::MIN).unwrap();
    assert_eq!(p.points(), &pts(&[(-1, -1)]));
    assert_eq!(p.offset(), Point::new(i64::MIN, i64::MIN));
    p.correct();
    assert_eq!(p.points(), &pts(&[(i64::MAX, i64::MAX)]));
    assert!(!p.shifted());
}

#[test]
fn polygon_out_of_bounds_goes_by_the_extents() {
    let p = Polygon::new(pts(&[(0, 0), (3, 2)])).unwrap();
    assert!(!p.out_of_bounds(4, 3));
    assert!(p.out_of_bounds(3, 3));
    assert!(p.out_of_bounds(4, 2));
    let q = Polygon::new(pts(&[(-1, 0), (3, 2)])).unwrap();
    assert!(q.out_of_bounds(10, 10));
}

#[test]
fn polygon_as_mut_gives_the_ring_itself() {
    let mut p = Polygon::new(pts(&[(0, 0), (1, 1)])).unwrap();
    p.as_mut().close();
    assert!(p.valid());
}

#[test]
fn complex_polygon_closes_open_paths_and_records_it() {
    let c = ComplexPolygon::from_paths(vec![
        pts(&[(0, 0), (4, 0), (4, 4), (0, 0)]),
        pts(&[(10, -2), (12, 3), (11, 5)]),
    ])
    .unwrap();
    assert!(!c.valid());
    assert_eq!(c.polygons().len(), 2);
    assert_eq!(c.polygons()[0].points(), &pts(&[(0, 0), (4, 0), (4, 4), (0, 0)]));
    assert_eq!(c.polygons()[1].points(), &pts(&[(10, -2), (12, 3), (11, 5), (10, -2)]));
    assert!(c.polygons()[1].valid());
    assert_eq!(c.extents(), Extents { min_x: 0, min_y: -2, max_x: 12, max_y: 5 });
}

#[test]
fn complex_polygon_of_closed_paths_is_valid() {
    let c = ComplexPolygon::from_paths(vec![pts(&[(1, 1), (2, 2), (1, 1)]), pts(&[(5, 5)])])
        .unwrap();
    assert!(c.valid());
    assert_eq!(c.extents(), Extents { min_x: 1, min_y: 1, max_x: 5, max_y: 5 });
}

#[test]
fn complex_polygon_of_no_paths_has_the_empty_box() {
    let c = ComplexPolygon::from_paths(Vec::new()).unwrap();
    assert!(c.valid());
    assert_eq!(c.polygons().len(), 0);
    assert_eq!(
        c.extents(),
        Extents { min_x: i64::MAX, min_y: i64::MAX, max_x: i64::MIN, max_y: i64::MIN }
    );
}

#[test]
fn complex_polygon_refuses_an_empty_path() {
    let r = ComplexPolygon::from_paths(vec![pts(&[(1, 1)]), Vec::new()]);
    assert!(matches!(r, Err(Error::InvalidArgument)));
}
