use xpt_parser::cells::{decode_row, decode_rows, storage_width_of};
use xpt_parser::layout::RowLayout;
use xpt_parser::{VariableType, XPTParser, XPTVariable};

fn variable(var_type: VariableType, length: usize) -> XPTVariable {
    XPTVariable { name: "V".to_string(), label: "V".to_string(), var_type, length, position: 1 }
}

fn columns() -> Vec<XPTVariable> {
    vec![
        variable(VariableType::Character, 4),
        variable(VariableType::Numeric, 8),
        variable(VariableType::Character, 2),
    ]
}

#[test]
fn cell_is_decoded_by_kind() {
    let text = variable(VariableType::Character, 8);
    let number = variable(VariableType::Numeric, 8);
    let one = [0x41, 0x10, 0, 0, 0, 0, 0, 0];
    assert_eq!(XPTParser::parse_cell(b"abc     ", &text), "abc");
    assert_eq!(XPTParser::parse_cell(&[0x41, 0xC2, 0xA0, 0x20], &text), "A");
    assert_eq!(XPTParser::parse_cell(&[0x41, 0xFF, 0x20], &text), "A\u{fffd}");
    assert_eq!(XPTParser::parse_cell(&one, &number), "1");
    assert_eq!(XPTParser::parse_cell(&one, &text), "A\u{10}");
    assert_eq!(XPTParser::parse_cell(b"........", &number), "");
}

#[test]
fn storage_width_is_sum_of_lengths() {
    assert_eq!(storage_width_of(&columns()), 14);
    assert_eq!(storage_width_of(&Vec::new()), 0);
    let wide = vec![variable(VariableType::Character, usize::MAX); 3];
    assert_eq!(storage_width_of(&wide), 3 * (usize::MAX as u128));
}

#[test]
fn row_has_a_value_for_each_variable() {
    let mut bytes = b"ab  ".to_vec();
    bytes.extend_from_slice(&[0xC2, 0x64, 0, 0, 0, 0, 0, 0]);
    bytes.extend_from_slice(b"yz");
    let row = decode_row(&bytes, &columns()).unwrap();
    assert_eq!(row.values, ["ab", "-100", "yz"]);
}

#[test]
fn bytes_after_the_last_cell_are_ignored() {
    let mut bytes = b"ab  ".to_vec();
    bytes.extend_from_slice(&[0x41, 0x10, 0, 0, 0, 0, 0, 0]);
    bytes.extend_from_slice(b"yzPADDING");
    let row = decode_row(&bytes, &columns()).unwrap();
    assert_eq!(row.values, ["ab", "1", "yz"]);
}

#[test]
fn short_row_is_dropped() {
    let bytes = vec![b' '; 13];
    assert!(decode_row(&bytes, &columns()).is_none());
    assert!(decode_row(&[], &columns()).is_none());
    assert!(decode_row(&bytes[..3], &columns()).is_none());
}

#[test]
fn row_without_variables_is_empty() {
    let row = decode_row(b"anything", &Vec::new()).unwrap();
    assert!(row.values.is_empty());
}

#[test]
fn rows_start_at_multiples_of_the_stride() {
    let mut bytes = Vec::new();
    for (text, number, tail) in [("r1", 0x10u8, "aa"), ("r2", 0x20, "bb"), ("r3", 0x30, "cc")] {
        bytes.extend_from_slice(text.as_bytes());
        bytes.extend_from_slice(b"  ");
        bytes.extend_from_slice(&[0x41, number, 0, 0, 0, 0, 0, 0]);
        bytes.extend_from_slice(tail.as_bytes());
        bytes.extend_from_slice(b"??");
    }
    let layout = RowLayout { stride: 16, data_len: 48 };
    let rows = decode_rows(&bytes, layout, &columns());
    assert_eq!(rows.len(), 3);
    assert_eq!(rows[0].values, ["r1", "1", "aa"]);
    assert_eq!(rows[1].values, ["r2", "2", "bb"]);
    assert_eq!(rows[2].values, ["r3", "3", "cc"]);
}

#[test]
fn bytes_after_the_kept_length_are_no_row() {
    let mut bytes = Vec::new();
    for _ in 0..2 {
        bytes.extend_from_slice(b"abcd");
        bytes.extend_from_slice(&[0, 0, 0, 0, 0, 0, 0, 0]);
        bytes.extend_from_slice(b"ef");
    }
    bytes.extend_from_slice(b"      ");
    let layout = RowLayout { stride: 14, data_len: 28 };
    let rows = decode_rows(&bytes, layout, &columns());
    assert_eq!(rows.len(), 2);
    assert_eq!(rows[1].values, ["abcd", "0", "ef"]);
}
