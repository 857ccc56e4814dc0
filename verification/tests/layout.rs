use xpt_parser::layout::{resolve_row_width, RowLayout};
use xpt_parser::XptError;

fn padded_rows(rows: usize) -> Vec<u8> {
    let mut data = Vec::new();
    for _ in 0..rows {
        data.extend_from_slice(b"ABCDEFGHIJ");
        data.extend_from_slice(b"      ");
    }
    data
}

#[test]
fn exact_multiple_resolves_to_storage_width() {
    let data = vec![b'x'; 40];
    assert_eq!(resolve_row_width(&data, 10), Ok(RowLayout { stride: 10, data_len: 40 }));
}

#[test]
fn filler_at_the_end_is_cut_off() {
    let mut data = vec![b'x'; 40];
    data.extend_from_slice(b"   \0\0 ");
    assert_eq!(resolve_row_width(&data, 10), Ok(RowLayout { stride: 10, data_len: 40 }));
}

#[test]
fn rounded_stride_is_taken_when_the_storage_width_does_not_fit() {
    // three rows of sixteen: the last eight bytes hold data, so ten does not fit
    let data = padded_rows(3);
    assert_eq!(data.len(), 48);
    assert_eq!(resolve_row_width(&data, 10), Ok(RowLayout { stride: 16, data_len: 48 }));
}

#[test]
fn rounded_stride_with_filler_after_the_rows() {
    let mut data = padded_rows(3);
    data.extend_from_slice(b"    ");
    // 52 = 5 * 10 + 2 and the last two bytes are filler: ten fits first
    assert_eq!(resolve_row_width(&data, 10), Ok(RowLayout { stride: 10, data_len: 50 }));
    let mut data = padded_rows(3);
    data.extend_from_slice(b"       ");
    // 55 = 5 * 10 + 5: the last five bytes are filler
    assert_eq!(resolve_row_width(&data, 10), Ok(RowLayout { stride: 10, data_len: 50 }));
    let mut data = padded_rows(5);
    data.extend_from_slice(b"  ");
    // 82 = 8 * 10 + 2
    assert_eq!(resolve_row_width(&data, 10), Ok(RowLayout { stride: 10, data_len: 80 }));
}

#[test]
fn storage_width_comes_first_even_where_rows_are_padded() {
    // four rows of sixteen whose last six bytes are spaces: 64 = 6 * 10 + 4,
    // and the last four bytes are filler, so the first candidate fits
    let data = padded_rows(4);
    assert_eq!(data.len(), 64);
    assert_eq!(resolve_row_width(&data, 10), Ok(RowLayout { stride: 10, data_len: 60 }));
}

#[test]
fn sixteen_fits_sixty_four_when_the_tail_holds_data() {
    let data = vec![b'x'; 64];
    assert_eq!(resolve_row_width(&data, 10), Ok(RowLayout { stride: 16, data_len: 64 }));
    assert_eq!(resolve_row_width(&data, 16), Ok(RowLayout { stride: 16, data_len: 64 }));
    assert_eq!(resolve_row_width(&data, 9), Ok(RowLayout { stride: 16, data_len: 64 }));
}

#[test]
fn no_candidate_fits() {
    let data = vec![b'x'; 41];
    assert_eq!(
        resolve_row_width(&data, 10),
        Err(XptError::UnresolvableRowWidth { storage_width: 10, length: 41 })
    );
    let data = vec![b'x'; 5];
    assert_eq!(
        resolve_row_width(&data, 10),
        Err(XptError::UnresolvableRowWidth { storage_width: 10, length: 5 })
    );
}

#[test]
fn zero_storage_width_is_refused() {
    assert_eq!(resolve_row_width(&[1, 2, 3], 0), Err(XptError::ZeroStorageWidth));
    assert_eq!(resolve_row_width(&[], 0), Err(XptError::ZeroStorageWidth));
}

#[test]
fn less_than_one_row_is_too_small() {
    assert_eq!(
        resolve_row_width(&[], 10),
        Err(XptError::ObservationTooSmall { stride: 10, length: 0 })
    );
    assert_eq!(
        resolve_row_width(b"     ", 10),
        Err(XptError::ObservationTooSmall { stride: 10, length: 5 })
    );
    assert_eq!(
        resolve_row_width(b"\0\0\0", 8),
        Err(XptError::ObservationTooSmall { stride: 8, length: 3 })
    );
}

#[test]
fn storage_width_beyond_the_data() {
    let data = vec![b'x'; 40];
    assert_eq!(
        resolve_row_width(&data, u128::MAX),
        Err(XptError::UnresolvableRowWidth { storage_width: u128::MAX, length: 40 })
    );
    assert_eq!(
        resolve_row_width(&[], u128::MAX),
        Err(XptError::ObservationTooSmall { stride: u128::MAX, length: 0 })
    );
    let wide = u128::MAX - 7;
    assert_eq!(
        resolve_row_width(&data, wide),
        Err(XptError::UnresolvableRowWidth { storage_width: wide, length: 40 })
    );
    let data = vec![b' '; 40];
    assert_eq!(
        resolve_row_width(&data, wide),
        Err(XptError::ObservationTooSmall { stride: wide, length: 40 })
    );
}

#[test]
fn row_count_is_length_over_stride() {
    // one byte short of five rows: four rows, and no part of a fifth
    let mut data = vec![b'x'; 40];
    data.extend_from_slice(b"         ");
    let layout = resolve_row_width(&data, 10).unwrap();
    assert_eq!(layout.data_len / layout.stride, 4);
    assert_eq!(data.len() / layout.stride, 4);
}
