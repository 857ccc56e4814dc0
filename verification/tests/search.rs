use xpt_parser::bytes::{align_to_record_boundary, align_within, find_bytes};

#[test]
fn finds_first_occurrence() {
    assert_eq!(find_bytes(b"abcabc", b"bc"), Some(1));
    assert_eq!(find_bytes(b"abcabc", b"abc"), Some(0));
    assert_eq!(find_bytes(b"aab", b"ab"), Some(1));
    assert_eq!(find_bytes(b"abcabd", b"abd"), Some(3));
}

#[test]
fn absent_pattern_is_not_found() {
    assert_eq!(find_bytes(b"abcabc", b"cb"), None);
    assert_eq!(find_bytes(b"ab", b"abc"), None);
    assert_eq!(find_bytes(b"", b"a"), None);
}

#[test]
fn aligns_up_to_record_boundary() {
    assert_eq!(align_to_record_boundary(0), 0);
    assert_eq!(align_to_record_boundary(1), 80);
    assert_eq!(align_to_record_boundary(48), 80);
    assert_eq!(align_to_record_boundary(79), 80);
    assert_eq!(align_to_record_boundary(80), 80);
    assert_eq!(align_to_record_boundary(81), 160);
    assert_eq!(align_to_record_boundary(128), 160);
}

#[test]
fn aligned_offset_stays_within_limit() {
    assert_eq!(align_within(48, 200), Some(80));
    assert_eq!(align_within(80, 80), Some(80));
    assert_eq!(align_within(81, 159), None);
    assert_eq!(align_within(81, 160), Some(160));
    assert_eq!(align_within(usize::MAX, usize::MAX), None);
    assert_eq!(align_within(10, 5), None);
}
