use rsc::array::{Array2d, DIMENSION_MISMATCH, SEAM_LENGTH_MISMATCH};

#[test]
fn array2d_new() {
    let _arr = Array2d::new(3, vec![1, 2, 3, 4, 5, 6, 7, 8, 9]).unwrap();
}

#[test]
#[should_panic]
fn array2d_new_incompatible() {
    let _arr = Array2d::new(4, vec![1, 2, 3, 4, 5, 6, 7, 8, 9]).unwrap();
}

#[test]
fn indexing() {
    let arr = Array2d::new(3, vec![1, 2, 3, 4, 5, 6, 7, 8, 9]).unwrap();
    assert_eq!(1, arr[(0, 0)]);
    assert_eq!(2, arr[(1, 0)]);
    assert_eq!(3, arr[(2, 0)]);
    assert_eq!(4, arr[(0, 1)]);
    assert_eq!(5, arr[(1, 1)]);
    assert_eq!(6, arr[(2, 1)]);
    assert_eq!(7, arr[(0, 2)]);
    assert_eq!(8, arr[(1, 2)]);
    assert_eq!(9, arr[(2, 2)]);
}

#[test]
fn indexing_mut() {
    let mut arr = Array2d::new(3, vec![1, 2, 3, 4, 5, 6, 7, 8, 9]).unwrap();
    assert_eq!(1, arr[(0, 0)]);
    *arr.index_mut((0, 0)) = 2;
    assert_eq!(2, arr[(0, 0)]);
}

#[test]
fn seam_removal() {
    let mut arr = Array2d::new(3, vec![1, 2, 3, 4, 5, 6, 7, 8, 9]).unwrap();
    assert_eq!(
        Array2d::new(3, vec![1, 2, 3, 4, 5, 6, 7, 8, 9]).unwrap(),
        arr
    );
    let seam = vec![1, 2, 1];
    arr.remove_seam(seam).unwrap();
    assert_eq!(
        Array2d::new(2, vec![1, 3, 4, 5, 7, 9]).unwrap(),
        arr
    );
}

#[test]
fn new_succeeds_exactly_on_whole_rows() {
    for width in 1..=7usize {
        for len in 0..=30usize {
            let built = Array2d::new(width, vec![0u8; len]);
            assert_eq!(built.is_ok(), len % width == 0, "width {width}, length {len}");
            if let Ok(grid) = built {
                assert_eq!(grid.width(), width);
                assert_eq!(grid.height(), len / width);
                assert_eq!(grid.size(), len);
            }
        }
    }
}

#[test]
fn new_reports_dimension_mismatch() {
    assert_eq!(Array2d::new(4, vec![1, 2, 3, 4, 5, 6, 7, 8, 9]).unwrap_err(), DIMENSION_MISMATCH);
    assert_eq!(
        Array2d::new(4, vec![1, 2, 3, 4, 5, 6, 7, 8, 9]).unwrap_err(),
        "length of data and width provided are not compatible"
    );
}

#[test]
fn width_zero_holds_no_cells() {
    assert_eq!(Array2d::new(0, vec![1, 2, 3]).unwrap_err(), DIMENSION_MISMATCH);
    let empty = Array2d::new(0, Vec::<u32>::new()).unwrap();
    assert_eq!((empty.width(), empty.height(), empty.size()), (0, 0, 0));
}

#[test]
fn rows_without_cells() {
    let grid = Array2d::new(5, Vec::<u32>::new()).unwrap();
    assert_eq!((grid.width(), grid.height(), grid.size()), (5, 0, 0));
}

#[test]
fn new_keeps_the_data() {
    let grid = Array2d::new(2, vec![10, 20, 30, 40, 50, 60]).unwrap();
    assert_eq!(grid.data(), &vec![10, 20, 30, 40, 50, 60]);
    assert_eq!((grid.width(), grid.height(), grid.size()), (2, 3, 6));
}

#[test]
fn index_reads_row_major() {
    let width = 4;
    let data: Vec<usize> = (0..20).map(|i| i * i + 1).collect();
    let grid = Array2d::new(width, data.clone()).unwrap();
    for y in 0..grid.height() {
        for x in 0..grid.width() {
            assert_eq!(grid[(x, y)], data[x + y * width]);
        }
    }
}

#[test]
fn writing_a_cell_changes_only_that_cell() {
    let mut grid = Array2d::new(3, vec![1, 2, 3, 4, 5, 6]).unwrap();
    *grid.index_mut((2, 1)) = 60;
    assert_eq!(grid[(2, 1)], 60);
    assert_eq!(grid, Array2d::new(3, vec![1, 2, 3, 4, 5, 60]).unwrap());
    *grid.index_mut((0, 0)) += 10;
    assert_eq!(grid, Array2d::new(3, vec![11, 2, 3, 4, 5, 60]).unwrap());
}

#[test]
fn remove_seam_rejects_wrong_length() {
    let mut grid = Array2d::new(3, vec![1, 2, 3, 4, 5, 6, 7, 8, 9]).unwrap();
    assert_eq!(grid.remove_seam(vec![1, 2]).unwrap_err(), SEAM_LENGTH_MISMATCH);
    assert_eq!(
        grid.remove_seam(vec![0, 0, 0, 0]).unwrap_err(),
        "seam length should be equal to image height"
    );
    assert_eq!(grid, Array2d::new(3, vec![1, 2, 3, 4, 5, 6, 7, 8, 9]).unwrap());
}

#[test]
fn remove_seam_narrows_by_one_column() {
    let mut grid = Array2d::new(4, (0..12).collect::<Vec<u32>>()).unwrap();
    grid.remove_seam(vec![0, 3, 2]).unwrap();
    assert_eq!((grid.width(), grid.height(), grid.size()), (3, 3, 9));
    assert_eq!(grid.data(), &vec![1, 2, 3, 4, 5, 6, 8, 9, 11]);
    grid.remove_seam(vec![2, 1, 0]).unwrap();
    assert_eq!((grid.width(), grid.height()), (2, 3));
    assert_eq!(grid.data(), &vec![1, 2, 4, 6, 9, 11]);
}

#[test]
fn remove_seam_from_first_and_last_column() {
    let mut grid = Array2d::new(3, vec![1, 2, 3, 4, 5, 6]).unwrap();
    grid.remove_seam(vec![0, 2]).unwrap();
    assert_eq!(grid, Array2d::new(2, vec![2, 3, 4, 5]).unwrap());
}

#[test]
fn remove_seam_from_single_column_leaves_nothing() {
    let mut grid = Array2d::new(1, vec![7, 8, 9]).unwrap();
    grid.remove_seam(vec![0, 0, 0]).unwrap();
    assert_eq!((grid.width(), grid.height(), grid.size()), (0, 0, 0));
}

#[test]
fn remove_seam_from_grid_without_rows() {
    let mut grid = Array2d::new(3, Vec::<u8>::new()).unwrap();
    grid.remove_seam(Vec::new()).unwrap();
    assert_eq!((grid.width(), grid.height()), (2, 0));
}
