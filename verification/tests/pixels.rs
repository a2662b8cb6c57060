use rsc::pixels::PixelBuffer;

#[test]
fn blank_image_is_black() {
    let img = PixelBuffer::blank(3, 2).unwrap();
    assert_eq!((img.width(), img.height()), (3, 2));
    for y in 0..2 {
        for x in 0..3 {
            assert_eq!(img.pixel(x, y), Some((0, 0, 0)));
        }
    }
}

#[test]
fn blank_image_may_have_no_pixels() {
    let flat = PixelBuffer::blank(5, 0).unwrap();
    assert_eq!((flat.width(), flat.height()), (5, 0));
    assert_eq!(flat.pixel(0, 0), None);
    let thin = PixelBuffer::blank(0, 7).unwrap();
    assert_eq!((thin.width(), thin.height()), (0, 7));
    assert_eq!(thin.pixel(0, 0), None);
}

#[test]
fn blank_refuses_what_no_vector_holds() {
    assert!(PixelBuffer::blank(u32::MAX, u32::MAX).is_none());
}

#[test]
fn pixel_outside_the_image_is_none() {
    let img = PixelBuffer::blank(3, 2).unwrap();
    assert_eq!(img.pixel(3, 0), None);
    assert_eq!(img.pixel(0, 2), None);
    assert_eq!(img.pixel(2, 1), Some((0, 0, 0)));
}

#[test]
fn set_pixel_is_read_back() {
    let mut img = PixelBuffer::blank(3, 2).unwrap();
    assert!(img.set_pixel(2, 1, (9, 8, 7)));
    assert!(img.set_pixel(0, 0, (1, 2, 3)));
    assert_eq!(img.pixel(2, 1), Some((9, 8, 7)));
    assert_eq!(img.pixel(0, 0), Some((1, 2, 3)));
    assert_eq!(img.pixel(1, 0), Some((0, 0, 0)));
    assert_eq!(img.pixel(1, 2), None);
    assert_eq!((img.width(), img.height()), (3, 2));
}

#[test]
fn set_pixel_outside_changes_nothing() {
    let mut img = PixelBuffer::blank(2, 2).unwrap();
    assert!(!img.set_pixel(2, 0, (1, 1, 1)));
    assert!(!img.set_pixel(0, 2, (1, 1, 1)));
    for y in 0..2 {
        for x in 0..2 {
            assert_eq!(img.pixel(x, y), Some((0, 0, 0)));
        }
    }
}

#[test]
fn set_pixel_keeps_column_and_row_apart() {
    let mut img = PixelBuffer::blank(3, 2).unwrap();
    assert!(img.set_pixel(2, 0, (5, 5, 5)));
    assert_eq!(img.pixel(2, 0), Some((5, 5, 5)));
    assert_eq!(img.pixel(0, 1), Some((0, 0, 0)));
}

#[test]
fn blank_counts_the_bytes_of_a_row() {
    let wide = PixelBuffer::blank(1_500_000_000, 0);
    assert_eq!(wide.is_some(), 3u64 * 1_500_000_000 <= usize::MAX as u64);
    let widest = PixelBuffer::blank(u32::MAX, 0);
    assert_eq!(widest.is_some(), 3u64 * (u32::MAX as u64) <= usize::MAX as u64);
}
