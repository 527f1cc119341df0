use upolygon::contours::{contour_trace, find_contours, find_contours_rs, flatten_paths, tracer};
use upolygon::geometry::{Direction, Error, Point};
use upolygon::labels::LabelGrid;
use upolygon::mask::Mask;

fn mask_of(rows: usize, cols: usize, cells: &[(usize, usize)]) -> Mask {
    let mut mask = Mask::zeros(rows, cols).unwrap();
    for cell in cells {
        mask.set(cell.0, cell.1, 1).unwrap();
    }
    mask
}

fn grid_of(rows: &[Vec<i8>]) -> LabelGrid {
    let cols = if rows.is_empty() { 0 } else { rows[0].len() };
    let mut grid = LabelGrid::zeros(rows.len(), cols).unwrap();
    for (r, row) in rows.iter().enumerate() {
        for (c, value) in row.iter().enumerate() {
            grid.set(r, c, *value).unwrap();
        }
    }
    grid
}

fn path(coords: &[(i64, i64)]) -> Vec<Point> {
    coords.iter().map(|c| Point::new(c.0, c.1)).collect()
}

#[test]
fn test_find_contours_empty() {
    let image = Mask::zeros(10, 10).unwrap();
    let (labels, outer_paths, inner_paths) = find_contours_rs(image).unwrap();
    assert_eq!(labels, LabelGrid::zeros(10, 10).unwrap());
    assert_eq!(outer_paths, Vec::<Vec<Point>>::new());
    assert_eq!(inner_paths, Vec::<Vec<Point>>::new());
}

#[test]
fn test_find_contours_single_outer() {
    let mut image = Mask::zeros(10, 10).unwrap();
    image.set(1, 1, 1).unwrap();
    image.set(1, 2, 1).unwrap();
    image.set(1, 3, 1).unwrap();
    image.set(2, 1, 1).unwrap();
    image.set(2, 3, 1).unwrap();
    image.set(3, 1, 1).unwrap();
    image.set(3, 2, 1).unwrap();
    image.set(3, 3, 1).unwrap();
    let found = find_contours_rs(image);
    assert!(matches!(found, Err(Error::TraceDiverged)));
}

#[test]
fn find_contours_keeps_the_shape_of_the_mask() {
    let (labels, _, _) = find_contours_rs(mask_of(3, 7, &[(1, 1)])).unwrap();
    assert_eq!(labels.dim(), (3, 7));
    let (labels, outer, inner) = find_contours_rs(Mask::zeros(0, 4).unwrap()).unwrap();
    assert_eq!(labels.dim(), (0, 4));
    assert!(outer.is_empty() && inner.is_empty());
    let (labels, _, _) = find_contours_rs(Mask::zeros(5, 0).unwrap()).unwrap();
    assert_eq!(labels.dim(), (5, 0));
}

#[test]
fn find_contours_filled_block() {
    let mut cells = Vec::new();
    for row in 1..4 {
        for col in 1..4 {
            cells.push((row, col));
        }
    }
    let (labels, outer, inner) = find_contours_rs(mask_of(10, 10, &cells)).unwrap();
    assert_eq!(
        outer,
        vec![path(&[(1, 1), (2, 1), (3, 1), (3, 2), (3, 3), (2, 3), (1, 3), (1, 2), (1, 1)])]
    );
    assert_eq!(
        inner,
        vec![path(&[(1, 3), (1, 2), (1, 1), (2, 1), (3, 1), (3, 2), (3, 3), (2, 3), (1, 3)])]
    );
    for cell in &cells {
        assert_eq!(labels.get(cell.0, cell.1), Some(1));
    }
    let mut expected = vec![vec![0i8; 10]; 10];
    expected[0] = vec![-1, -1, -1, 0, 0, 0, 0, 0, 0, 0];
    expected[1] = vec![0, 1, 1, 1, -1, 0, 0, 0, 0, 0];
    expected[2] = vec![-1, 1, 1, 1, -1, 0, 0, 0, 0, 0];
    expected[3] = vec![-1, 1, 1, 1, 0, 0, 0, 0, 0, 0];
    expected[4] = vec![-1, -1, -1, -1, 0, 0, 0, 0, 0, 0];
    assert_eq!(labels, grid_of(&expected));
}

#[test]
fn find_contours_hollow_square_walk_never_closes() {
    let mut cells = Vec::new();
    for row in 1..6 {
        for col in 1..6 {
            if !(2..5).contains(&row) || !(2..5).contains(&col) {
                cells.push((row, col));
            }
        }
    }
    assert!(matches!(find_contours_rs(mask_of(10, 10, &cells)), Err(Error::TraceDiverged)));
}

#[test]
fn find_contours_isolated_pixel_is_a_one_point_contour() {
    let (labels, outer, inner) = find_contours_rs(mask_of(3, 3, &[(1, 1)])).unwrap();
    assert_eq!(outer, vec![path(&[(1, 1)])]);
    assert_eq!(inner, Vec::<Vec<Point>>::new());
    assert_eq!(
        labels,
        grid_of(&[vec![-1, -1, -1], vec![-1, 1, -1], vec![-1, -1, -1]])
    );
}

#[test]
fn find_contours_pixel_in_the_corner() {
    let (labels, outer, inner) = find_contours_rs(mask_of(2, 2, &[(0, 0)])).unwrap();
    assert_eq!(outer, vec![path(&[(0, 0)])]);
    assert!(inner.is_empty());
    assert_eq!(labels, grid_of(&[vec![1, -1], vec![-1, -1]]));
}

#[test]
fn find_contours_scans_the_last_row_and_column() {
    let (labels, outer, inner) = find_contours_rs(mask_of(1, 2, &[(0, 0), (0, 1)])).unwrap();
    assert_eq!(outer, vec![path(&[(0, 0), (1, 0), (0, 0)])]);
    assert!(inner.is_empty());
    assert_eq!(labels, grid_of(&[vec![1, 1]]));
}

#[test]
fn find_contours_horizontal_bar() {
    let (labels, outer, inner) =
        find_contours_rs(mask_of(3, 5, &[(1, 1), (1, 2), (1, 3)])).unwrap();
    assert_eq!(outer, vec![path(&[(1, 1), (2, 1), (3, 1), (2, 1), (1, 1)])]);
    assert_eq!(inner, vec![path(&[(1, 1), (2, 1), (3, 1), (2, 1), (1, 1)])]);
    assert_eq!(
        labels,
        grid_of(&[vec![-1, -1, -1, 0, 0], vec![-1, 1, 1, 1, -1], vec![-1, -1, -1, -1, -1]])
    );
}

#[test]
fn find_contours_numbers_regions_in_scan_order() {
    let (labels, outer, inner) =
        find_contours_rs(mask_of(2, 5, &[(0, 0), (1, 0), (0, 3), (0, 4)])).unwrap();
    assert_eq!(
        outer,
        vec![path(&[(0, 0), (0, 1), (0, 0)]), path(&[(3, 0), (4, 0), (3, 0)])]
    );
    assert!(inner.is_empty());
    assert_eq!(labels, grid_of(&[vec![1, -1, -1, 2, 2], vec![1, -1, 0, -1, -1]]));
}

#[test]
fn find_contours_walk_that_never_returns_is_refused() {
    let cells = [
        (0, 0), (0, 1), (0, 2), (0, 3),
        (1, 1), (1, 2), (1, 3),
        (2, 1), (2, 2), (2, 3),
    ];
    assert!(matches!(find_contours_rs(mask_of(3, 4, &cells)), Err(Error::TraceDiverged)));
}

#[test]
fn find_contours_uses_every_id_up_to_127() {
    let mut cells = Vec::new();
    let mut col = 0;
    while col < 254 {
        cells.push((0, col));
        col += 2;
    }
    assert_eq!(cells.len(), 127);
    let (labels, outer, inner) = find_contours_rs(mask_of(1, 255, &cells)).unwrap();
    assert_eq!(outer.len(), 127);
    assert!(inner.is_empty());
    assert_eq!(labels.get(0, 0), Some(1));
    assert_eq!(labels.get(0, 1), Some(-1));
    assert_eq!(labels.get(0, 2), Some(2));
    assert_eq!(labels.get(0, 252), Some(127));
    assert_eq!(outer[126], path(&[(252, 0)]));
}

#[test]
fn find_contours_refuses_the_128th_contour() {
    let mut cells = Vec::new();
    let mut col = 0;
    while col < 255 {
        cells.push((0, col));
        col += 2;
    }
    assert_eq!(cells.len(), 128);
    assert!(matches!(find_contours_rs(mask_of(1, 255, &cells)), Err(Error::CapacityExceeded)));
}

#[test]
fn find_contours_flattens_the_paths_to_pairs() {
    let (labels, outer, inner) =
        find_contours(mask_of(2, 5, &[(0, 0), (1, 0), (0, 3), (0, 4)])).unwrap();
    assert_eq!(labels, grid_of(&[vec![1, -1, -1, 2, 2], vec![1, -1, 0, -1, -1]]));
    assert_eq!(
        outer,
        vec![vec![0, 0], vec![0, 1], vec![0, 0], vec![3, 0], vec![4, 0], vec![3, 0]]
    );
    assert_eq!(inner, Vec::<Vec<i64>>::new());
    assert!(matches!(
        find_contours(mask_of(3, 3, &[(0, 0), (0, 1), (0, 2), (1, 0), (1, 2), (2, 0), (2, 1), (2, 2)])),
        Err(Error::TraceDiverged)
    ));
}

#[test]
fn flatten_paths_joins_in_order() {
    let paths = vec![path(&[(1, 2), (3, 4)]), Vec::new(), path(&[(-5, 6)])];
    assert_eq!(flatten_paths(&paths), vec![vec![1, 2], vec![3, 4], vec![-5, 6]]);
    assert_eq!(flatten_paths(&Vec::new()), Vec::<Vec<i64>>::new());
}

#[test]
fn tracer_finds_the_first_foreground_neighbour_and_marks_the_misses() {
    let image = mask_of(3, 3, &[(1, 1), (2, 1)]);
    let mut labels = LabelGrid::zeros(3, 3).unwrap();
    let mut next = Point::new(0, 0);
    let found = tracer(Point::new(1, 1), Direction::UpLeft, &mut next, &image, &mut labels);
    assert_eq!(found, Direction::Down);
    assert_eq!(next, Point::new(1, 2));
    assert_eq!(
        labels,
        grid_of(&[vec![-1, -1, -1], vec![0, 0, -1], vec![0, 0, -1]])
    );
}

#[test]
fn tracer_starts_at_the_given_direction() {
    let image = mask_of(3, 3, &[(1, 1), (1, 0), (1, 2)]);
    let mut labels = LabelGrid::zeros(3, 3).unwrap();
    let mut next = Point::new(0, 0);
    let found = tracer(Point::new(1, 1), Direction::Right, &mut next, &image, &mut labels);
    assert_eq!(found, Direction::Right);
    assert_eq!(next, Point::new(2, 1));
    assert_eq!(labels, LabelGrid::zeros(3, 3).unwrap());
    let found = tracer(Point::new(1, 1), Direction::DownRight, &mut next, &image, &mut labels);
    assert_eq!(found, Direction::Left);
    assert_eq!(next, Point::new(0, 1));
    assert_eq!(
        labels,
        grid_of(&[vec![0, 0, 0], vec![0, 0, 0], vec![-1, -1, -1]])
    );
}

#[test]
fn tracer_without_any_neighbour_stays_and_marks_all_eight() {
    let image = mask_of(3, 3, &[(1, 1)]);
    let mut labels = LabelGrid::zeros(3, 3).unwrap();
    let mut next = Point::new(7, 7);
    let found = tracer(Point::new(1, 1), Direction::Up, &mut next, &image, &mut labels);
    assert_eq!(found, Direction::Up);
    assert_eq!(next, Point::new(1, 1));
    assert_eq!(
        labels,
        grid_of(&[vec![-1, -1, -1], vec![-1, 0, -1], vec![-1, -1, -1]])
    );
}

#[test]
fn tracer_at_the_edge_treats_outside_as_background() {
    let image = mask_of(1, 2, &[(0, 0), (0, 1)]);
    let mut labels = LabelGrid::zeros(1, 2).unwrap();
    let mut next = Point::new(0, 0);
    let found = tracer(Point::new(0, 0), Direction::UpLeft, &mut next, &image, &mut labels);
    assert_eq!(found, Direction::Right);
    assert_eq!(next, Point::new(1, 0));
    assert_eq!(labels, LabelGrid::zeros(1, 2).unwrap());
}

#[test]
fn contour_trace_follows_a_bar_there_and_back() {
    let image = mask_of(3, 5, &[(1, 1), (1, 2), (1, 3)]);
    let mut labels = LabelGrid::zeros(3, 5).unwrap();
    let walked = contour_trace(Point::new(1, 1), 4, &image, &mut labels, false).unwrap();
    assert_eq!(walked, path(&[(0, 0), (1, 0), (2, 0), (1, 0), (0, 0)]));
    assert_eq!(
        labels,
        grid_of(&[vec![-1, -1, -1, 0, 0], vec![-1, 4, 4, 4, -1], vec![0, 0, -1, -1, -1]])
    );
}

#[test]
fn contour_trace_of_an_isolated_pixel() {
    let image = mask_of(3, 3, &[(1, 1)]);
    let mut labels = LabelGrid::zeros(3, 3).unwrap();
    let walked = contour_trace(Point::new(1, 1), 9, &image, &mut labels, true).unwrap();
    assert_eq!(walked, path(&[(0, 0)]));
    assert_eq!(labels.get(1, 1), Some(0));
    assert_eq!(labels.get(0, 0), Some(-1));
}

#[test]
fn contour_trace_refuses_a_start_at_the_end_of_the_range() {
    let image = mask_of(1, 1, &[(0, 0)]);
    let mut labels = LabelGrid::zeros(1, 1).unwrap();
    let r = contour_trace(Point::new(i64::MAX, 0), 1, &image, &mut labels, false);
    assert!(matches!(r, Err(Error::InvalidArgument)));
    let r = contour_trace(Point::new(0, i64::MIN), 1, &image, &mut labels, false);
    assert!(matches!(r, Err(Error::InvalidArgument)));
    assert_eq!(labels, LabelGrid::zeros(1, 1).unwrap());
}

#[test]
fn find_contours_paths_are_closed_rings_over_foreground() {
    let cells = [(0, 0), (1, 0), (0, 3), (0, 4), (2, 2), (3, 2), (3, 3)];
    let image = mask_of(4, 5, &cells);
    let (_, outer, inner) = find_contours_rs(mask_of(4, 5, &cells)).unwrap();
    assert_eq!(outer.len(), 3);
    for ring in outer.iter().chain(inner.iter()) {
        assert!(!ring.is_empty());
        assert_eq!(ring[0], ring[ring.len() - 1]);
        for p in ring {
            assert_eq!(image.get(p.y as usize, p.x as usize), Some(1));
        }
    }
}
