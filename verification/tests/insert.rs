use image::{Rgb, RgbImage};
use rsc::pixels::PixelBuffer;
use rsc::seam::{insert_horizontal_seams, insert_vertical_seams, try_insert_seams, Direction};

type Color = (u8, u8, u8);

fn buffer_from_image(img: &RgbImage) -> PixelBuffer {
    let mut buffer = PixelBuffer::blank(img.width(), img.height()).unwrap();
    for (x, y, pixel) in img.enumerate_pixels() {
        assert!(buffer.set_pixel(x, y, (pixel.0[0], pixel.0[1], pixel.0[2])));
    }
    buffer
}

fn buffer_from_rows(rows: &[Vec<Color>]) -> PixelBuffer {
    let mut buffer = PixelBuffer::blank(rows[0].len() as u32, rows.len() as u32).unwrap();
    for (y, row) in rows.iter().enumerate() {
        for (x, color) in row.iter().enumerate() {
            assert!(buffer.set_pixel(x as u32, y as u32, *color));
        }
    }
    buffer
}

fn rows_of(buffer: &PixelBuffer) -> Vec<Vec<Color>> {
    (0..buffer.height())
        .map(|y| (0..buffer.width()).map(|x| buffer.pixel(x, y).unwrap()).collect())
        .collect()
}

/// Three rows of four pixels, all different.
fn sample() -> PixelBuffer {
    buffer_from_rows(&[
        vec![(0, 255, 1), (10, 235, 4), (20, 215, 7), (30, 195, 10)],
        vec![(100, 255, 8), (110, 235, 11), (120, 215, 14), (130, 195, 17)],
        vec![(200, 255, 15), (210, 235, 18), (220, 215, 21), (230, 195, 24)],
    ])
}

#[test]
fn insert_one_vertical_seam() {
    let wider = insert_vertical_seams(&sample(), &[vec![1], vec![3], vec![0]]);
    assert_eq!((wider.width(), wider.height()), (5, 3));
    assert_eq!(
        rows_of(&wider),
        vec![
            vec![(0, 255, 1), (5, 245, 2), (15, 225, 5), (20, 215, 7), (30, 195, 10)],
            vec![(100, 255, 8), (110, 235, 11), (120, 215, 14), (125, 205, 15), (115, 225, 12)],
            vec![(200, 255, 15), (205, 245, 16), (210, 235, 18), (220, 215, 21), (230, 195, 24)],
        ]
    );
}

#[test]
fn insert_two_vertical_seams_given_out_of_order() {
    let wider = insert_vertical_seams(&sample(), &[vec![2, 0], vec![3, 1], vec![1, 2]]);
    assert_eq!((wider.width(), wider.height()), (6, 3));
    assert_eq!(
        rows_of(&wider),
        vec![
            vec![(0, 255, 1), (5, 245, 2), (10, 235, 4), (15, 225, 5), (25, 205, 8), (30, 195, 10)],
            vec![
                (100, 255, 8),
                (105, 245, 9),
                (115, 225, 12),
                (120, 215, 14),
                (125, 205, 15),
                (115, 225, 12)
            ],
            vec![
                (200, 255, 15),
                (205, 245, 16),
                (215, 225, 19),
                (215, 225, 19),
                (225, 205, 22),
                (230, 195, 24)
            ],
        ]
    );
}

#[test]
fn insert_one_horizontal_seam() {
    let taller = insert_horizontal_seams(&sample(), &[vec![0], vec![2], vec![1], vec![1]]);
    assert_eq!((taller.width(), taller.height()), (4, 4));
    assert_eq!(
        rows_of(&taller),
        vec![
            vec![(0, 255, 1), (10, 235, 4), (20, 215, 7), (30, 195, 10)],
            vec![(50, 255, 4), (110, 235, 11), (70, 215, 10), (80, 195, 13)],
            vec![(100, 255, 8), (160, 235, 14), (170, 215, 17), (180, 195, 20)],
            vec![(200, 255, 15), (110, 235, 11), (220, 215, 21), (230, 195, 24)],
        ]
    );
}

#[test]
fn insert_two_horizontal_seams() {
    let taller =
        insert_horizontal_seams(&sample(), &[vec![2, 0], vec![0, 1], vec![1, 2], vec![2, 1]]);
    assert_eq!((taller.width(), taller.height()), (4, 5));
    assert_eq!(
        rows_of(&taller),
        vec![
            vec![(0, 255, 1), (10, 235, 4), (20, 215, 7), (30, 195, 10)],
            vec![(50, 255, 4), (60, 235, 7), (70, 215, 10), (80, 195, 13)],
            vec![(100, 255, 8), (60, 235, 7), (170, 215, 17), (180, 195, 20)],
            vec![(150, 255, 11), (160, 235, 14), (170, 215, 17), (180, 195, 20)],
            vec![(100, 255, 8), (210, 235, 18), (120, 215, 14), (130, 195, 17)],
        ]
    );
}

#[test]
fn inserted_pixels_are_averages_of_their_neighbours() {
    let img = sample();
    let seams = [vec![2, 0], vec![3, 1], vec![1, 2]];
    let wider = insert_vertical_seams(&img, &seams);
    assert_eq!(wider.width(), img.width() + 2);
    assert_eq!(wider.height(), img.height());
    for (y, marks) in seams.iter().enumerate() {
        let y = y as u32;
        let mut sorted = marks.clone();
        sorted.sort();
        for (rank, &mark) in sorted.iter().enumerate() {
            let (x, rank) = (mark as u32, rank as u32);
            let here = img.pixel(x, y).unwrap();
            let left = img.pixel(x.saturating_sub(1), y).unwrap();
            let right = img.pixel((x + 1) % img.width(), y).unwrap();
            let half = |a: u8, b: u8| ((a as u16 + b as u16) / 2) as u8;
            let blend = |p: Color, q: Color| (half(p.0, q.0), half(p.1, q.1), half(p.2, q.2));
            assert_eq!(wider.pixel(x + rank, y), Some(blend(left, here)));
            assert_eq!(wider.pixel(x + rank + 1, y), Some(blend(here, right)));
        }
    }
}

#[test]
fn first_column_blends_with_itself_and_last_with_first() {
    let img = buffer_from_rows(&[vec![(10, 10, 10), (20, 20, 20), (200, 200, 200)]]);
    let first = insert_vertical_seams(&img, &[vec![0]]);
    assert_eq!(
        rows_of(&first),
        vec![vec![(10, 10, 10), (15, 15, 15), (20, 20, 20), (200, 200, 200)]]
    );
    let last = insert_vertical_seams(&img, &[vec![2]]);
    assert_eq!(
        rows_of(&last),
        vec![vec![(10, 10, 10), (20, 20, 20), (110, 110, 110), (105, 105, 105)]]
    );
}

#[test]
fn repeated_mark_is_used_once_and_the_rest_stays_black() {
    let wider = insert_vertical_seams(&sample(), &[vec![2, 2], vec![1, 1]]);
    assert_eq!((wider.width(), wider.height()), (6, 3));
    assert_eq!(
        rows_of(&wider),
        vec![
            vec![(0, 255, 1), (10, 235, 4), (15, 225, 5), (25, 205, 8), (30, 195, 10), (0, 0, 0)],
            vec![
                (100, 255, 8),
                (105, 245, 9),
                (115, 225, 12),
                (120, 215, 14),
                (130, 195, 17),
                (0, 0, 0)
            ],
            vec![(0, 0, 0); 6],
        ]
    );
}

#[test]
fn mark_beyond_the_line_is_never_reached() {
    let img = buffer_from_rows(&[vec![(1, 1, 1), (3, 3, 3)]]);
    let wider = insert_vertical_seams(&img, &[vec![5]]);
    assert_eq!(rows_of(&wider), vec![vec![(1, 1, 1), (3, 3, 3), (0, 0, 0)]]);
}

#[test]
fn batch_without_marks_copies_the_image() {
    let wider = insert_vertical_seams(&sample(), &[vec![], vec![], vec![]]);
    assert_eq!(rows_of(&wider), rows_of(&sample()));
}

#[test]
fn insert_into_image_built_by_the_image_crate() {
    let mut img = RgbImage::new(2, 2);
    img.put_pixel(0, 0, Rgb([255, 255, 255]));
    img.put_pixel(1, 0, Rgb([1, 2, 3]));
    img.put_pixel(0, 1, Rgb([9, 9, 9]));
    img.put_pixel(1, 1, Rgb([3, 4, 4]));
    let wider = insert_vertical_seams(&buffer_from_image(&img), &[vec![1], vec![0]]);
    assert_eq!(
        rows_of(&wider),
        vec![
            vec![(255, 255, 255), (128, 128, 129), (128, 128, 129)],
            vec![(9, 9, 9), (6, 6, 6), (3, 4, 4)],
        ]
    );
}

#[test]
fn try_insert_inserts_where_it_can() {
    let img = sample();
    let seams = [vec![1], vec![3], vec![0]];
    let tried = try_insert_seams(&img, &seams, Direction::Vertical).unwrap();
    assert_eq!(rows_of(&tried), rows_of(&insert_vertical_seams(&img, &seams)));
    let columns = [vec![0], vec![2], vec![1], vec![1]];
    let tried = try_insert_seams(&img, &columns, Direction::Horizontal).unwrap();
    assert_eq!(rows_of(&tried), rows_of(&insert_horizontal_seams(&img, &columns)));
}

#[test]
fn try_insert_refuses_what_cannot_be_inserted() {
    let img = sample();
    assert!(try_insert_seams(&img, &[], Direction::Vertical).is_none());
    assert!(try_insert_seams(&img, &[vec![1], vec![1, 2], vec![0]], Direction::Vertical).is_none());
    let too_many = [vec![1], vec![1], vec![1], vec![1]];
    assert!(try_insert_seams(&img, &too_many, Direction::Vertical).is_none());
    assert!(try_insert_seams(&img, &too_many, Direction::Horizontal).is_some());
    let five = [vec![1], vec![1], vec![1], vec![1], vec![1]];
    assert!(try_insert_seams(&img, &five, Direction::Horizontal).is_none());
}

#[test]
fn fewer_lines_in_the_batch_leave_the_others_black() {
    let wider = try_insert_seams(&sample(), &[vec![0]], Direction::Vertical).unwrap();
    assert_eq!(
        rows_of(&wider),
        vec![
            vec![(0, 255, 1), (5, 245, 2), (10, 235, 4), (20, 215, 7), (30, 195, 10)],
            vec![(0, 0, 0); 5],
            vec![(0, 0, 0); 5],
        ]
    );
}

#[test]
fn image_without_columns_only_grows_black() {
    let img = PixelBuffer::blank(0, 2).unwrap();
    let wider = insert_vertical_seams(&img, &[vec![0, 1], vec![0, 0], vec![3, 4]]);
    assert_eq!(rows_of(&wider), vec![vec![(0, 0, 0); 2]; 2]);
}
