use upolygon::canvas::Canvas;
use upolygon::geometry::Error;
use upolygon::labels::LabelGrid;
use upolygon::mask::Mask;

#[test]
fn canvas_zeros_has_the_shape_and_only_zeros() {
    let c = Canvas::zeros(2, 3).unwrap();
    assert_eq!(c.dim(), (2, 3));
    let mut row: usize = 0;
    while row < 2 {
        let mut col: usize = 0;
        while col < 3 {
            assert_eq!(c.get(row, col), Some(0));
            col += 1;
        }
        row += 1;
    }
    assert_eq!(c.get(2, 0), None);
    assert_eq!(c.get(0, 3), None);
}

#[test]
fn canvas_set_changes_one_cell() {
    let mut c = Canvas::zeros(2, 3).unwrap();
    assert_eq!(c.set(1, 2, 7), Ok(()));
    assert_eq!(c.get(1, 2), Some(7));
    assert_eq!(c.get(0, 2), Some(0));
    assert_eq!(c.get(1, 1), Some(0));
    assert_eq!(c.dim(), (2, 3));
    assert_ne!(c, Canvas::zeros(2, 3).unwrap());
    assert_eq!(c.set(2, 0, 1), Err(Error::InvalidArgument));
    assert_eq!(c.set(0, 3, 1), Err(Error::InvalidArgument));
}

#[test]
fn canvas_zeros_refuses_a_size_that_cannot_be_allocated() {
    assert!(matches!(Canvas::zeros(usize::MAX, 2), Err(Error::InvalidArgument)));
    assert!(matches!(Canvas::zeros(0, usize::MAX), Err(Error::InvalidArgument)));
    assert_eq!(Canvas::zeros(0, 5).unwrap().dim(), (0, 5));
}

#[test]
fn mask_zeros_get_set_and_dim() {
    let mut m = Mask::zeros(3, 2).unwrap();
    assert_eq!(m.dim(), (3, 2));
    assert_eq!(m.get(2, 1), Some(0));
    assert_eq!(m.set(2, 1, 1), Ok(()));
    assert_eq!(m.get(2, 1), Some(1));
    assert_eq!(m.get(1, 1), Some(0));
    assert_eq!(m.get(3, 0), None);
    assert_eq!(m.set(0, 2, 1), Err(Error::InvalidArgument));
    assert!(matches!(Mask::zeros(usize::MAX, usize::MAX), Err(Error::InvalidArgument)));
}

#[test]
fn label_grid_zeros_get_set_and_dim() {
    let mut g = LabelGrid::zeros(1, 4).unwrap();
    assert_eq!(g.dim(), (1, 4));
    assert_eq!(g.get(0, 3), Some(0));
    assert_eq!(g.set(0, 3, -1), Ok(()));
    assert_eq!(g.get(0, 3), Some(-1));
    assert_eq!(g.get(0, 2), Some(0));
    assert_eq!(g.get(1, 0), None);
    assert_eq!(g.set(1, 0, 5), Err(Error::InvalidArgument));
    assert!(matches!(LabelGrid::zeros(usize::MAX, 1), Err(Error::InvalidArgument)));
}
