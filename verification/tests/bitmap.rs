use piso_display::surface::Bitmap;

fn from_rows(rows: &[&[u8]]) -> Bitmap {
    let width = if rows.is_empty() { 0 } else { rows[0].len() };
    let mut bitmap = Bitmap::new(width, rows.len());
    for (y, row) in rows.iter().enumerate() {
        for (x, pixel) in row.iter().enumerate() {
            assert!(bitmap.set(x, y, *pixel));
        }
    }
    bitmap
}

fn rows_of(bitmap: &Bitmap) -> Vec<Vec<u8>> {
    (0..bitmap.height())
        .map(|y| (0..bitmap.width()).map(|x| bitmap.get(x, y).unwrap()).collect())
        .collect()
}

#[test]
fn new_bitmap_is_blank() {
    let bitmap = Bitmap::new(3, 2);
    assert_eq!(bitmap.width(), 3);
    assert_eq!(bitmap.height(), 2);
    assert_eq!(rows_of(&bitmap), vec![vec![0, 0, 0], vec![0, 0, 0]]);
}

#[test]
fn empty_bitmap_has_no_pixels() {
    let bitmap = Bitmap::new(0, 0);
    assert_eq!(bitmap.width(), 0);
    assert_eq!(bitmap.height(), 0);
    assert_eq!(bitmap.get(0, 0), None);
}

#[test]
fn a_bitmap_without_rows_keeps_its_width() {
    let bitmap = Bitmap::new(4, 0);
    assert_eq!(bitmap.width(), 4);
    assert_eq!(bitmap.height(), 0);
    assert_eq!(bitmap.get(0, 0), None);
}

#[test]
fn get_outside_the_bitmap_finds_nothing() {
    let bitmap = Bitmap::new(3, 2);
    assert_eq!(bitmap.get(2, 1), Some(0));
    assert_eq!(bitmap.get(3, 1), None);
    assert_eq!(bitmap.get(2, 2), None);
}

#[test]
fn set_writes_one_pixel() {
    let mut bitmap = Bitmap::new(3, 2);
    assert!(bitmap.set(2, 1, 9));
    assert!(bitmap.set(0, 0, 4));
    assert_eq!(rows_of(&bitmap), vec![vec![4, 0, 0], vec![0, 0, 9]]);
}

#[test]
fn set_outside_the_bitmap_writes_nothing() {
    let mut bitmap = Bitmap::new(3, 2);
    assert!(!bitmap.set(3, 0, 9));
    assert!(!bitmap.set(0, 2, 9));
    assert_eq!(bitmap, Bitmap::new(3, 2));
}

#[test]
fn blit_into_an_empty_bitmap_grows_it() {
    let mut base = Bitmap::new(0, 0);
    base.blit(&from_rows(&[&[1, 2], &[3, 4]]), (1, 2));
    assert_eq!(
        rows_of(&base),
        vec![vec![0, 0, 0], vec![0, 0, 0], vec![0, 1, 2], vec![0, 3, 4]]
    );
}

#[test]
fn blit_overwrites_what_it_covers() {
    let mut base = from_rows(&[&[1, 1, 1], &[1, 1, 1], &[1, 1, 1]]);
    base.blit(&from_rows(&[&[7, 0]]), (1, 1));
    assert_eq!(rows_of(&base), vec![vec![1, 1, 1], vec![1, 7, 0], vec![1, 1, 1]]);
}

#[test]
fn blit_that_sticks_out_grows_the_bitmap() {
    let mut base = from_rows(&[&[1, 1], &[1, 1]]);
    base.blit(&from_rows(&[&[5, 6], &[7, 8]]), (1, 1));
    assert_eq!(rows_of(&base), vec![vec![1, 1, 0], vec![1, 5, 6], vec![0, 7, 8]]);
}

#[test]
fn blit_at_the_origin_of_an_equal_bitmap_replaces_it() {
    let mut base = from_rows(&[&[1, 2], &[3, 4]]);
    base.blit(&from_rows(&[&[5, 6], &[7, 8]]), (0, 0));
    assert_eq!(base, from_rows(&[&[5, 6], &[7, 8]]));
}

#[test]
fn blit_of_an_empty_bitmap_copies_nothing() {
    let mut base = from_rows(&[&[1, 2], &[3, 4]]);
    base.blit(&Bitmap::new(0, 0), (1, 1));
    assert_eq!(base, from_rows(&[&[1, 2], &[3, 4]]));
}

#[test]
fn blit_of_a_bitmap_without_pixels_does_not_grow_the_base() {
    let mut base = Bitmap::new(0, 0);
    base.blit(&Bitmap::new(0, 0), (2, 1));
    assert_eq!(base, Bitmap::new(0, 0));
    base.blit(&Bitmap::new(3, 0), (2, 1));
    assert_eq!(base, Bitmap::new(0, 0));
    base.blit(&Bitmap::new(0, 3), (usize::MAX, usize::MAX));
    assert_eq!(base, Bitmap::new(0, 0));
}

#[test]
fn blit_leaves_the_source_alone() {
    let source = from_rows(&[&[5]]);
    let mut base = Bitmap::new(1, 1);
    base.blit(&source, (0, 0));
    assert_eq!(source, from_rows(&[&[5]]));
    assert_eq!(base, source);
}
