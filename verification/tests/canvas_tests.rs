use rusty_ppm::canvas::{Canvas, Pixel};
use rusty_ppm::ppm_reader::PpmReaderError;
use rusty_ppm::utils::{complete_path, generate_sample_canvas};

fn px(r: u8, g: u8, b: u8) -> Pixel {
    Pixel { r, g, b }
}

#[test]
fn new_canvas_is_zero_filled() {
    let c = Canvas::new(4, 3);
    assert_eq!(c.width, 4);
    assert_eq!(c.height, 3);
    assert_eq!(c.data.len(), 12);
    for row in 0..3 {
        for col in 0..4 {
            assert_eq!(c.get(row, col), Some(px(0, 0, 0)));
        }
    }
}

#[test]
fn get_bounds() {
    let c = Canvas::new(2, 2);
    // every cell inside the grid is present
    assert!(c.get(0, 0).is_some());
    assert!(c.get(1, 1).is_some());
    // any row at or past the height is absent
    assert!(c.get(2, 0).is_none());
    assert!(c.get(100, 0).is_none());
    // any column at or past the width is absent
    assert!(c.get(0, 2).is_none());
    assert!(c.get(1, 100).is_none());
    let one_row = Canvas::new(3, 1);
    assert!(one_row.get(0, 2).is_some());
    assert!(one_row.get(0, 3).is_none());
}

#[test]
fn set_updates_and_reports_bounds() {
    let mut c = Canvas::new(2, 2);
    assert_eq!(c.set(1, 0, px(5, 6, 7)), Ok(()));
    assert_eq!(c.get(1, 0), Some(px(5, 6, 7)));
    assert_eq!(c.set(2, 0, px(1, 1, 1)), Err(PpmReaderError::BoundsError));
    // a failed write leaves the canvas unchanged
    assert_eq!(c.get(1, 0), Some(px(5, 6, 7)));
}

#[test]
fn row_major_layout() {
    let mut c = Canvas::new(3, 2);
    assert!(c.set(1, 2, px(9, 8, 7)).is_ok());
    // (row, col) sits at index row * width + col
    assert_eq!(c.data[1 * 3 + 2], px(9, 8, 7));
}

#[test]
fn pixels_walk_row_major() {
    let mut c = Canvas::new(2, 2);
    assert!(c.set(0, 0, px(1, 0, 0)).is_ok());
    assert!(c.set(0, 1, px(2, 0, 0)).is_ok());
    assert!(c.set(1, 0, px(3, 0, 0)).is_ok());
    assert!(c.set(1, 1, px(4, 0, 0)).is_ok());
    let reds: Vec<u8> = c.pixels().iter().map(|p| p.r).collect();
    assert_eq!(reds, vec![1, 2, 3, 4]);
    // the traversal is restartable: a second walk sees the same sequence
    let again: Vec<u8> = c.pixels().iter().map(|p| p.r).collect();
    assert_eq!(reds, again);
}

#[test]
fn canvas_equality_is_by_contents() {
    let a = Canvas::new(2, 1);
    let mut b = Canvas::new(2, 1);
    assert_eq!(a, b);
    assert!(b.set(0, 1, px(1, 0, 0)).is_ok());
    assert_ne!(a, b);
}

#[test]
fn complete_path_joins_and_adds_extension() {
    assert_eq!(complete_path("images", "photo"), "images/photo.ppm");
    assert_eq!(complete_path(".", "out"), "./out.ppm");
}

#[test]
fn sample_canvas_gradient() {
    let c = generate_sample_canvas(4, 2);
    assert_eq!(c.width, 4);
    assert_eq!(c.height, 2);
    // red grows with the row, green with the column
    assert_eq!(c.get(0, 0), Some(px(0, 0, 0)));
    assert_eq!(c.get(1, 3), Some(px(128, 192, 0)));
    assert_eq!(c.get(0, 2), Some(px(0, 128, 0)));
}
