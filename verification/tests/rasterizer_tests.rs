use upolygon::canvas::Canvas;
use upolygon::geometry::{Error, Extents, Point};
use upolygon::line::bresenham;
use upolygon::polygon::Polygon;
use upolygon::polygons::{
    draw_polygon, draw_polygon_rs, draw_polygons, draw_polygons_rs, get_furthest_extents,
    get_new_mask,
};

fn ring(coords: &[(i64, i64)]) -> Vec<Point> {
    coords.iter().map(|c| Point::new(c.0, c.1)).collect()
}

fn ones(canvas: &Canvas) -> Vec<(usize, usize)> {
    let (rows, cols) = canvas.dim();
    let mut found = Vec::new();
    for row in 0..rows {
        for col in 0..cols {
            match canvas.get(row, col) {
                Some(0) => {}
                Some(1) => found.push((row, col)),
                other => panic!("unexpected cell {:?}", other),
            }
        }
    }
    found
}

fn outline(points: &[Point]) -> Vec<(usize, usize)> {
    let mut cells = Vec::new();
    for i in 0..points.len() - 1 {
        for p in bresenham(points[i], points[i + 1]) {
            cells.push((p.y as usize, p.x as usize));
        }
    }
    cells.sort();
    cells.dedup();
    cells
}

#[test]
fn bresenham_gentle_slope() {
    assert_eq!(
        bresenham(Point::new(0, 0), Point::new(5, 2)),
        ring(&[(0, 0), (1, 0), (2, 1), (3, 1), (4, 2), (5, 2)])
    );
}

#[test]
fn bresenham_steep_slope() {
    assert_eq!(
        bresenham(Point::new(0, 0), Point::new(2, 5)),
        ring(&[(0, 0), (0, 1), (1, 2), (1, 3), (2, 4), (2, 5)])
    );
}

#[test]
fn bresenham_single_point() {
    assert_eq!(bresenham(Point::new(3, 3), Point::new(3, 3)), ring(&[(3, 3)]));
}

#[test]
fn bresenham_goes_left_and_down() {
    assert_eq!(
        bresenham(Point::new(4, 1), Point::new(0, 3)),
        ring(&[(4, 1), (3, 1), (2, 2), (1, 2), (0, 3)])
    );
}

#[test]
fn bresenham_tie_stays_near_the_start() {
    assert_eq!(
        bresenham(Point::new(0, 0), Point::new(4, 2)),
        ring(&[(0, 0), (1, 0), (2, 1), (3, 1), (4, 2)])
    );
}

#[test]
fn bresenham_into_negative_coordinates() {
    assert_eq!(
        bresenham(Point::new(0, 0), Point::new(-3, -7)),
        ring(&[(0, 0), (0, -1), (-1, -2), (-1, -3), (-2, -4), (-2, -5), (-3, -6), (-3, -7)])
    );
}

#[test]
fn bresenham_horizontal_len_is_span_plus_one() {
    let line = bresenham(Point::new(1, 1), Point::new(6, 1));
    assert_eq!(line, ring(&[(1, 1), (2, 1), (3, 1), (4, 1), (5, 1), (6, 1)]));
}

#[test]
fn bresenham_across_the_whole_range_does_not_overflow_at_its_ends() {
    let line = bresenham(Point::new(i64::MAX - 2, i64::MIN), Point::new(i64::MAX, i64::MIN + 1));
    assert_eq!(
        line,
        ring(&[
            (i64::MAX - 2, i64::MIN),
            (i64::MAX - 1, i64::MIN),
            (i64::MAX, i64::MIN + 1),
        ])
    );
}

#[test]
fn draw_square_ring_inside_bounds() {
    let square = ring(&[(5, 5), (10, 5), (10, 10), (5, 10), (5, 5)]);
    let mut polygon = Polygon::new(square.clone()).unwrap();
    let out = draw_polygon_rs(Canvas::zeros(20, 20).unwrap(), &mut polygon).unwrap();
    assert_eq!(out.dim(), (20, 20));
    assert_eq!(ones(&out), outline(&square));
    assert_eq!(ones(&out).len(), 20);
    assert_eq!(out.get(7, 7), Some(0));
    assert_eq!(out.get(5, 5), Some(1));
    assert_eq!(out.get(10, 10), Some(1));
    assert_eq!(polygon.points(), &square);
    assert!(!polygon.shifted());
}

#[test]
fn draw_puts_x_in_columns_and_y_in_rows() {
    let mut polygon = Polygon::new(ring(&[(2, 1), (6, 1)])).unwrap();
    let out = draw_polygon_rs(Canvas::zeros(3, 8).unwrap(), &mut polygon).unwrap();
    assert_eq!(out.dim(), (3, 8));
    assert_eq!(ones(&out), vec![(1, 2), (1, 3), (1, 4), (1, 5), (1, 6)]);
}

#[test]
fn draw_closes_an_open_ring_first() {
    let mut polygon = Polygon::new(ring(&[(0, 0), (3, 0), (3, 3)])).unwrap();
    let out = draw_polygon_rs(Canvas::zeros(4, 4).unwrap(), &mut polygon).unwrap();
    assert!(polygon.valid());
    assert_eq!(polygon.points(), &ring(&[(0, 0), (3, 0), (3, 3), (0, 0)]));
    assert_eq!(
        ones(&out),
        vec![(0, 0), (0, 1), (0, 2), (0, 3), (1, 1), (1, 3), (2, 2), (2, 3), (3, 3)]
    );
}

#[test]
fn draw_keeps_what_was_on_the_canvas() {
    let mut canvas = Canvas::zeros(3, 3).unwrap();
    canvas.set(2, 2, 1).unwrap();
    let mut polygon = Polygon::new(ring(&[(0, 0), (1, 0)])).unwrap();
    let out = draw_polygon_rs(canvas, &mut polygon).unwrap();
    assert_eq!(ones(&out), vec![(0, 0), (0, 1), (2, 2)]);
}

#[test]
fn draw_single_point_ring_sets_nothing() {
    let mut polygon = Polygon::new(ring(&[(1, 1)])).unwrap();
    let out = draw_polygon_rs(Canvas::zeros(3, 3).unwrap(), &mut polygon).unwrap();
    assert_eq!(ones(&out), Vec::new());
}

#[test]
fn draw_out_of_bounds_replaces_the_canvas_and_rebases_the_ring() {
    let given = ring(&[(-2, -1), (3, -1), (3, 2), (-2, 2), (-2, -1)]);
    let mut canvas = Canvas::zeros(5, 5).unwrap();
    canvas.set(2, 2, 1).unwrap();
    let mut polygon = Polygon::new(given.clone()).unwrap();
    let out = draw_polygon_rs(canvas, &mut polygon).unwrap();
    assert_eq!(out.dim(), (4, 6));
    let rebased = ring(&[(0, 0), (5, 0), (5, 3), (0, 3), (0, 0)]);
    assert_eq!(polygon.points(), &rebased);
    assert_eq!(polygon.offset(), Point::new(2, 1));
    assert!(polygon.shifted());
    assert_eq!(polygon.extents(), Extents { min_x: 0, min_y: 0, max_x: 5, max_y: 3 });
    assert_eq!(ones(&out), outline(&rebased));
    assert_eq!(ones(&out).len(), 16);
    assert_eq!(out.get(1, 1), Some(0));
    let mut cropped = Vec::new();
    for i in 0..given.len() - 1 {
        for p in bresenham(given[i], given[i + 1]) {
            cropped.push(((p.y + 1) as usize, (p.x + 2) as usize));
        }
    }
    cropped.sort();
    cropped.dedup();
    assert_eq!(ones(&out), cropped);
    polygon.correct();
    assert_eq!(polygon.points(), &given);
}

#[test]
fn draw_out_of_bounds_may_give_a_canvas_of_the_same_size() {
    let mut polygon = Polygon::new(ring(&[(1, 1), (3, 1), (3, 3), (1, 3), (1, 1)])).unwrap();
    let out = draw_polygon_rs(Canvas::zeros(3, 3).unwrap(), &mut polygon).unwrap();
    assert_eq!(out.dim(), (3, 3));
    assert_eq!(polygon.points(), &ring(&[(0, 0), (2, 0), (2, 2), (0, 2), (0, 0)]));
    assert_eq!(ones(&out).len(), 8);
    assert_eq!(out.get(1, 1), Some(0));
}

#[test]
fn draw_refuses_coordinates_that_cannot_be_rebased() {
    let mut polygon = Polygon::new(ring(&[(i64::MIN, 0), (0, 0)])).unwrap();
    let r = draw_polygon_rs(Canvas::zeros(2, 2).unwrap(), &mut polygon);
    assert!(matches!(r, Err(Error::InvalidArgument)));
    assert_eq!(polygon.points(), &ring(&[(i64::MIN, 0), (0, 0), (i64::MIN, 0)]));
    let mut wide = Polygon::new(ring(&[(-1, 0), (i64::MAX, 0)])).unwrap();
    let r = draw_polygon_rs(Canvas::zeros(2, 2).unwrap(), &mut wide);
    assert!(matches!(r, Err(Error::InvalidArgument)));
    assert!(!wide.shifted());
}

#[test]
fn furthest_extents_span_all_rings() {
    let polygons = vec![
        Polygon::new(ring(&[(0, 0), (2, 2)])).unwrap(),
        Polygon::new(ring(&[(-3, 1), (1, 7)])).unwrap(),
    ];
    assert_eq!(
        get_furthest_extents(&polygons),
        Extents { min_x: -3, min_y: 0, max_x: 2, max_y: 7 }
    );
    assert_eq!(
        get_furthest_extents(&Vec::new()),
        Extents { min_x: i64::MAX, min_y: i64::MAX, max_x: i64::MIN, max_y: i64::MIN }
    );
}

#[test]
fn new_mask_covers_the_box_and_rebases_every_ring() {
    let mut polygons = vec![
        Polygon::new(ring(&[(0, 0), (2, 2)])).unwrap(),
        Polygon::new(ring(&[(-3, 1), (1, 7)])).unwrap(),
    ];
    let mask = get_new_mask(&mut polygons).unwrap();
    assert_eq!(mask.dim(), (8, 6));
    assert_eq!(ones(&mask), Vec::new());
    assert_eq!(polygons[0].points(), &ring(&[(3, 0), (5, 2)]));
    assert_eq!(polygons[1].points(), &ring(&[(0, 1), (4, 7)]));
    assert_eq!(polygons[0].offset(), Point::new(3, 0));
}

#[test]
fn new_mask_refuses_and_moves_nothing_when_one_ring_cannot_move() {
    let mut far = Polygon::new(ring(&[(i64::MIN + 10, 5), (i64::MIN + 11, 6)])).unwrap();
    far.shift(i64::MAX, 0).unwrap();
    assert_eq!(far.points(), &ring(&[(9, 5), (10, 6)]));
    assert_eq!(far.offset(), Point::new(i64::MAX, 0));
    let mut polygons = vec![Polygon::new(ring(&[(-1, 0), (0, 0)])).unwrap(), far];
    let r = get_new_mask(&mut polygons);
    assert!(matches!(r, Err(Error::InvalidArgument)));
    assert_eq!(polygons[0].points(), &ring(&[(-1, 0), (0, 0)]));
    assert!(!polygons[0].shifted());
    assert_eq!(polygons[1].points(), &ring(&[(9, 5), (10, 6)]));
    assert_eq!(polygons[1].offset(), Point::new(i64::MAX, 0));
}

#[test]
fn draw_many_rings_into_one_canvas() {
    let a = ring(&[(0, 0), (2, 0), (2, 2), (0, 2), (0, 0)]);
    let b = ring(&[(4, 1), (6, 1), (6, 3), (4, 1)]);
    let mut polygons = vec![Polygon::new(a.clone()).unwrap(), Polygon::new(b.clone()).unwrap()];
    let out = draw_polygons_rs(Canvas::zeros(5, 8).unwrap(), &mut polygons).unwrap();
    assert_eq!(out.dim(), (5, 8));
    let mut expected = outline(&a);
    expected.extend(outline(&b));
    expected.sort();
    expected.dedup();
    assert_eq!(ones(&out), expected);
    assert_eq!(out.get(1, 1), Some(0));
}

#[test]
fn draw_many_rings_resizes_jointly() {
    let mut polygons = vec![
        Polygon::new(ring(&[(1, 1), (2, 1), (1, 1)])).unwrap(),
        Polygon::new(ring(&[(-1, 3), (0, 4), (-1, 3)])).unwrap(),
    ];
    let out = draw_polygons_rs(Canvas::zeros(10, 10).unwrap(), &mut polygons).unwrap();
    assert_eq!(out.dim(), (4, 4));
    assert_eq!(polygons[0].points(), &ring(&[(2, 0), (3, 0), (2, 0)]));
    assert_eq!(polygons[1].points(), &ring(&[(0, 2), (1, 3), (0, 2)]));
    assert_eq!(ones(&out), vec![(0, 2), (0, 3), (2, 0), (3, 1)]);
}

#[test]
fn draw_many_rings_in_any_order_sets_the_same_cells() {
    let a = ring(&[(0, 0), (5, 0), (5, 4), (0, 0)]);
    let b = ring(&[(2, 1), (7, 6), (1, 6), (2, 1)]);
    let c = ring(&[(3, 3), (3, 8)]);
    let mut first = vec![
        Polygon::new(a.clone()).unwrap(),
        Polygon::new(b.clone()).unwrap(),
        Polygon::new(c.clone()).unwrap(),
    ];
    let mut second = vec![
        Polygon::new(c.clone()).unwrap(),
        Polygon::new(a.clone()).unwrap(),
        Polygon::new(b.clone()).unwrap(),
    ];
    let one = draw_polygons_rs(Canvas::zeros(12, 12).unwrap(), &mut first).unwrap();
    let two = draw_polygons_rs(Canvas::zeros(12, 12).unwrap(), &mut second).unwrap();
    assert_eq!(one, two);
    let mut third = vec![Polygon::new(b).unwrap(), Polygon::new(c).unwrap(), Polygon::new(a).unwrap()];
    let mut fourth = vec![
        Polygon::new(ring(&[(3, 3), (3, 8)])).unwrap(),
        Polygon::new(ring(&[(2, 1), (7, 6), (1, 6), (2, 1)])).unwrap(),
        Polygon::new(ring(&[(0, 0), (5, 0), (5, 4), (0, 0)])).unwrap(),
    ];
    let small = draw_polygons_rs(Canvas::zeros(2, 2).unwrap(), &mut third).unwrap();
    let again = draw_polygons_rs(Canvas::zeros(2, 2).unwrap(), &mut fourth).unwrap();
    assert_eq!(small.dim(), (9, 8));
    assert_eq!(small, again);
}

#[test]
fn draw_no_rings_returns_the_canvas() {
    let mut canvas = Canvas::zeros(2, 2).unwrap();
    canvas.set(0, 1, 1).unwrap();
    let mut none: Vec<Polygon> = Vec::new();
    let out = draw_polygons_rs(canvas, &mut none).unwrap();
    assert_eq!(ones(&out), vec![(0, 1)]);
}

#[test]
fn draw_polygon_from_points() {
    let out = draw_polygon(Canvas::zeros(4, 4).unwrap(), ring(&[(0, 0), (3, 0), (3, 3)])).unwrap();
    assert_eq!(
        ones(&out),
        vec![(0, 0), (0, 1), (0, 2), (0, 3), (1, 1), (1, 3), (2, 2), (2, 3), (3, 3)]
    );
    let r = draw_polygon(Canvas::zeros(4, 4).unwrap(), Vec::new());
    assert!(matches!(r, Err(Error::InvalidArgument)));
}

#[test]
fn draw_polygons_from_point_lists() {
    let out = draw_polygons(
        Canvas::zeros(3, 5).unwrap(),
        vec![ring(&[(0, 0), (1, 0)]), ring(&[(4, 1), (4, 2)])],
    )
    .unwrap();
    assert_eq!(ones(&out), vec![(0, 0), (0, 1), (1, 4), (2, 4)]);
    let r = draw_polygons(Canvas::zeros(3, 5).unwrap(), vec![ring(&[(0, 0)]), Vec::new()]);
    assert!(matches!(r, Err(Error::InvalidArgument)));
}
