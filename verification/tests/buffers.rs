//! Tests of the borrow-or-own buffer wrapper and the row views.

use nearest_palette::seacow::{MutCow, RowBitmap, RowBitmapMut, SeaCow};

#[test]
fn seacow_borrowed_roundtrip() {
    let data = [1u8, 2, 3, 4];
    let cow = SeaCow::borrowed(&data);
    assert_eq!(cow.as_slice(), &[1, 2, 3, 4]);
}

#[test]
fn seacow_boxed_roundtrip() {
    let cow = SeaCow::boxed(vec![9u32, 8, 7]);
    assert_eq!(cow.as_slice(), &[9, 8, 7]);
}

#[test]
fn row_bitmap_rows_chunks_exactly() {
    let data = [1u8, 2, 3, 4, 5, 6, 7];
    let bitmap = RowBitmap::Contiguous { data: &data, width: 3 };
    let rows = bitmap.rows();
    // seven elements in rows of three: two full rows, the tail dropped
    assert_eq!(rows.len(), 2);
    assert_eq!(rows[0], &[1, 2, 3]);
    assert_eq!(rows[1], &[4, 5, 6]);
}

#[test]
fn row_bitmap_mut_len_and_rows() {
    let mut data = [0u16; 6];
    let bitmap = RowBitmapMut::new_contiguous(&mut data, 2);
    assert_eq!(bitmap.len(), 3);
    let mut rows = bitmap.rows_mut();
    assert_eq!(rows.len(), 3);
    for (i, row) in rows.iter_mut().enumerate() {
        row[0] = (i as u16) * 10;
        row[1] = (i as u16) * 10 + 1;
    }
    assert_eq!(data, [0, 1, 10, 11, 20, 21]);
}

#[test]
fn mut_cow_borrow_mut_owned_and_borrowed() {
    let mut cow: MutCow<u32> = MutCow::Owned(Box::new(5));
    *cow.borrow_mut() = 7;
    assert_eq!(*cow.borrow_mut(), 7);
    let mut x = 1u8;
    {
        let mut cow = MutCow::Borrowed(&mut x);
        *cow.borrow_mut() += 10;
    }
    assert_eq!(x, 11);
}

#[test]
fn row_bitmap_mut_chunks_stripes() {
    let mut data = [0u8; 10];
    for (i, v) in data.iter_mut().enumerate() {
        *v = i as u8;
    }
    // five rows of two elements, split into stripes of two rows
    let bitmap = RowBitmapMut::new_contiguous(&mut data, 2);
    let mut chunks = bitmap.chunks(2);
    assert_eq!(chunks.len(), 3);
    let rows_per_stripe: Vec<usize> = chunks.iter().map(|c| c.len()).collect();
    assert_eq!(rows_per_stripe, vec![2, 2, 1]);
    // stripes alias disjoint parts of the buffer, in order
    let last = chunks.pop().unwrap();
    assert_eq!(last.rows_mut().pop().unwrap(), &[8, 9]);
}
