use rasterizer::buffer::Buffer2D;

fn numbered(width: usize, height: usize) -> Buffer2D<u32> {
    let mut b = Buffer2D::default();
    b.clear_and_resize(width, height, 0u32);
    for y in 0..height {
        for x in 0..width {
            *b.get_mut(x, y) = (y * width + x) as u32;
        }
    }
    b
}

#[test]
fn clear_and_resize_then_get_reads_default() {
    let mut b: Buffer2D<u32> = Buffer2D::default();
    b.clear_and_resize(4, 3, 7);
    assert_eq!(b.width, 4);
    assert_eq!(b.height, 3);
    assert_eq!(b.data.len(), 12);
    for y in 0..3 {
        for x in 0..4 {
            assert_eq!(*b.get(x, y), 7);
        }
    }
}

#[test]
fn clear_and_resize_overwrites_old_cells() {
    let mut b = numbered(5, 5);
    b.clear_and_resize(3, 2, 9);
    assert_eq!(b.data, vec![9; 6]);
    b.clear_and_resize(6, 6, 1);
    assert_eq!(b.data, vec![1; 36]);
}

#[test]
fn clear_and_resize_to_empty() {
    let mut b = numbered(3, 3);
    b.clear_and_resize(0, 5, 4);
    assert_eq!(b.width, 0);
    assert_eq!(b.height, 5);
    assert!(b.data.is_empty());
}

#[test]
fn get_is_row_major() {
    let b = numbered(4, 3);
    assert_eq!(*b.get(0, 0), 0);
    assert_eq!(*b.get(3, 0), 3);
    assert_eq!(*b.get(0, 1), 4);
    assert_eq!(*b.get(2, 2), 10);
}

#[test]
fn get_mut_writes_one_cell() {
    let mut b: Buffer2D<u32> = Buffer2D::default();
    b.clear_and_resize(3, 3, 0);
    *b.get_mut(1, 2) = 5;
    assert_eq!(b.data, vec![0, 0, 0, 0, 0, 0, 0, 5, 0]);
}

#[test]
fn get_range_reads_inclusive_columns() {
    let b = numbered(5, 3);
    assert_eq!(b.get_range(1, 1..=3), &[6, 7, 8]);
    assert_eq!(b.get_range(2, 4..=4), &[14]);
    assert_eq!(b.get_range(0, 0..=4), &[0, 1, 2, 3, 4]);
}

#[test]
fn get_range_mut_writes_inclusive_columns() {
    let mut b = numbered(4, 2);
    for v in b.get_range_mut(1, 1..=2).iter_mut() {
        *v = 0;
    }
    assert_eq!(b.data, vec![0, 1, 2, 3, 4, 0, 0, 7]);
}

#[test]
fn area_gives_block_rows() {
    let b = numbered(4, 4);
    let rows = b.area(1, 2, 2, 2);
    assert_eq!(rows.len(), 2);
    assert_eq!(rows[0], &[9, 10]);
    assert_eq!(rows[1], &[13, 14]);
}

#[test]
fn condense_reads_cells_not_yet_written() {
    let mut b = numbered(4, 2);
    b.condense(2, 1, |buf, x, y| {
        let rows = buf.area(2 * x, 2 * y, 2, 2);
        rows.iter().map(|r| r.iter().sum::<u32>()).sum()
    });
    assert_eq!(b.width, 2);
    assert_eq!(b.height, 1);
    assert_eq!(b.data, vec![0 + 1 + 4 + 5, 2 + 3 + 6 + 7]);
}

#[test]
fn condense_in_place_same_size_is_identity_map() {
    let mut b = numbered(3, 3);
    b.condense(3, 3, |buf, x, y| *buf.get(x, y) * 2);
    assert_eq!(b.data, vec![0, 2, 4, 6, 8, 10, 12, 14, 16]);
}
