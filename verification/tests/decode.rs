use xpt_parser::parser::locate_sections;
use xpt_parser::{HeaderKind, VariableType, XPTDataset, XPTParser, XptError};

const NAMESTR: &[u8] = b"HEADER RECORD*******NAMESTR HEADER RECORD!!!!!!!000000000200000000000000000000  ";
const OBS: &[u8] = b"HEADER RECORD*******OBS     HEADER RECORD!!!!!!!000000000000000000000000000000  ";
const LIBRARY: &[u8] = b"HEADER RECORD*******LIBRARY HEADER RECORD!!!!!!!000000000000000000000000000000  ";

fn pad_to_record(bytes: &mut Vec<u8>) {
    while bytes.len() % 80 != 0 {
        bytes.push(b' ');
    }
}

fn descriptor(var_type: u16, length: u16, position: u16, name: &str, label: &str) -> Vec<u8> {
    let mut bytes = vec![0u8; 140];
    bytes[0..2].copy_from_slice(&var_type.to_be_bytes());
    bytes[4..6].copy_from_slice(&length.to_be_bytes());
    bytes[6..8].copy_from_slice(&position.to_be_bytes());
    for i in 8..64 {
        bytes[i] = b' ';
    }
    bytes[8..8 + name.len()].copy_from_slice(name.as_bytes());
    bytes[16..16 + label.len()].copy_from_slice(label.as_bytes());
    bytes
}

fn file(front: &[u8], descriptors: &[Vec<u8>], observations: &[u8]) -> Vec<u8> {
    let mut bytes = LIBRARY.to_vec();
    bytes.extend_from_slice(front);
    pad_to_record(&mut bytes);
    bytes.extend_from_slice(NAMESTR);
    for descriptor in descriptors {
        bytes.extend_from_slice(descriptor);
    }
    pad_to_record(&mut bytes);
    bytes.extend_from_slice(OBS);
    bytes.extend_from_slice(observations);
    bytes
}

fn number(value: u8) -> [u8; 8] {
    // a whole number below sixteen: one hex digit, exponent one
    [0x41, value << 4, 0, 0, 0, 0, 0, 0]
}

fn two_columns() -> Vec<Vec<u8>> {
    vec![descriptor(2, 4, 1, "NAME", "The name"), descriptor(1, 8, 2, "AGE", "")]
}

fn three_rows() -> Vec<u8> {
    let mut rows = Vec::new();
    for (name, age) in [("ann ", 3), ("bob ", 5), ("cy  ", 7)] {
        rows.extend_from_slice(name.as_bytes());
        rows.extend_from_slice(&number(age));
    }
    rows
}

fn values(dataset: &XPTDataset) -> Vec<Vec<String>> {
    dataset.rows.iter().map(|row| row.values.clone()).collect()
}

#[test]
fn decodes_variables_and_rows() {
    let data = file(b"", &two_columns(), &three_rows());
    let dataset = XPTParser::parse(&data, None).unwrap();
    assert_eq!(dataset.title, "XPT Dataset");
    assert_eq!(dataset.created_date, None);
    assert_eq!(dataset.modified_date, None);
    assert_eq!(dataset.variables.len(), 2);
    assert_eq!(dataset.variables[0].name, "NAME");
    assert_eq!(dataset.variables[0].label, "The name");
    assert_eq!(dataset.variables[0].var_type, VariableType::Character);
    assert_eq!(dataset.variables[0].length, 4);
    assert_eq!(dataset.variables[0].position, 1);
    assert_eq!(dataset.variables[1].name, "AGE");
    assert_eq!(dataset.variables[1].label, "AGE");
    assert_eq!(dataset.variables[1].var_type, VariableType::Numeric);
    assert_eq!(dataset.variables[1].length, 8);
    assert_eq!(dataset.variables[1].position, 2);
    assert_eq!(values(&dataset), [["ann", "3"], ["bob", "5"], ["cy", "7"]]);
}

#[test]
fn observations_padded_to_a_record() {
    let mut observations = three_rows();
    assert_eq!(observations.len(), 36);
    pad_to_record(&mut observations);
    let data = file(b"", &two_columns(), &observations);
    let dataset = XPTParser::parse(&data, None).unwrap();
    // 80 = 6 * 12 + 8, and the last eight bytes are spaces: six rows,
    // three of them made of padding
    assert_eq!(dataset.rows.len(), 6);
    assert_eq!(dataset.rows[2].values, ["cy", "7"]);
    // spaces read as a number are below a millionth
    assert_eq!(dataset.rows[3].values, ["", "0"]);
}

#[test]
fn cells_follow_the_order_of_the_variables() {
    // the file declares the number first and gives it the second position
    let descriptors = vec![descriptor(1, 8, 2, "AGE", ""), descriptor(2, 4, 1, "NAME", "")];
    let data = file(b"", &descriptors, &three_rows());
    let dataset = XPTParser::parse(&data, None).unwrap();
    assert_eq!(dataset.variables[0].name, "NAME");
    assert_eq!(dataset.variables[1].name, "AGE");
    assert_eq!(values(&dataset), [["ann", "3"], ["bob", "5"], ["cy", "7"]]);
}

#[test]
fn every_row_has_a_value_for_every_variable() {
    let descriptors = vec![
        descriptor(2, 3, 0, "A", ""),
        descriptor(1, 8, 0, "B", ""),
        descriptor(2, 1, 0, "", ""),
        descriptor(1, 8, 0, "D", ""),
    ];
    let observations = vec![b'7'; 20 * 9];
    let data = file(b"", &descriptors, &observations);
    let dataset = XPTParser::parse(&data, None).unwrap();
    assert_eq!(dataset.variables.len(), 4);
    assert_eq!(dataset.variables[2].name, "VAR3");
    assert_eq!(dataset.rows.len(), 9);
    for row in &dataset.rows {
        assert_eq!(row.values.len(), dataset.variables.len());
    }
}

#[test]
fn incomplete_last_row_is_left_out() {
    // three rows and four spaces: the file ends inside the fourth row
    let mut observations = three_rows();
    observations.extend_from_slice(b"    ");
    let data = file(b"", &two_columns(), &observations);
    let dataset = XPTParser::parse(&data, None).unwrap();
    assert_eq!(dataset.rows.len(), observations.len() / 12);
    assert_eq!(dataset.rows.len(), 3);
}

#[test]
fn rows_padded_to_a_multiple_of_eight() {
    // five rows of twelve bytes, each padded to sixteen with bytes that are
    // no filler: 80 = 6 * 12 + 8, so twelve does not fit and sixteen does
    let mut observations = Vec::new();
    for (name, age) in [("ann ", 3), ("bob ", 5), ("cy  ", 7), ("dee ", 9), ("eve ", 11)] {
        observations.extend_from_slice(name.as_bytes());
        observations.extend_from_slice(&number(age));
        observations.extend_from_slice(b"####");
    }
    let data = file(b"", &two_columns(), &observations);
    let dataset = XPTParser::parse(&data, None).unwrap();
    assert_eq!(
        values(&dataset),
        [["ann", "3"], ["bob", "5"], ["cy", "7"], ["dee", "9"], ["eve", "11"]]
    );
}

#[test]
fn decoding_twice_gives_the_same() {
    let data = file(b"MEMBER  NAMEDEMO    ", &two_columns(), &three_rows());
    let first = XPTParser::parse(&data, Some("a/b.xpt")).unwrap();
    let second = XPTParser::parse(&data, Some("a/b.xpt")).unwrap();
    assert_eq!(first.title, second.title);
    assert_eq!(first.created_date, second.created_date);
    assert_eq!(first.modified_date, second.modified_date);
    assert_eq!(first.variables.len(), second.variables.len());
    for (a, b) in first.variables.iter().zip(second.variables.iter()) {
        assert_eq!(a.name, b.name);
        assert_eq!(a.label, b.label);
        assert_eq!(a.var_type, b.var_type);
        assert_eq!(a.length, b.length);
        assert_eq!(a.position, b.position);
    }
    assert_eq!(values(&first), values(&second));
    let third = XPTParser::decode(&data, Some("b".to_string())).unwrap();
    assert_eq!(first.title, third.title);
    assert_eq!(values(&first), values(&third));
}

#[test]
fn title_and_dates_come_from_the_file() {
    let mut front = b"MEMBER  NAMEDEMO    SASDATA DATECREATED 01JAN20  DATEMODIFIED 02FEB21 ".to_vec();
    front.resize(front.len() + 32, b' ');
    let data = file(&front, &two_columns(), &three_rows());
    let dataset = XPTParser::parse(&data, Some("/tmp/foo.xpt")).unwrap();
    assert_eq!(dataset.title, "DEMO");
    // the window of the first date reaches into the second marker
    assert_eq!(dataset.created_date, Some("01JAN20  DATEMODIFIED 02FEB21".to_string()));
    assert_eq!(dataset.modified_date, Some("02FEB21".to_string()));
}

#[test]
fn title_comes_from_the_hint_where_the_file_has_none() {
    let data = file(b"", &two_columns(), &three_rows());
    assert_eq!(XPTParser::parse(&data, Some("/tmp/foo.xpt")).unwrap().title, "foo");
    assert_eq!(XPTParser::parse(&data, Some("foo.xpt")).unwrap().title, "foo");
    assert_eq!(XPTParser::parse(&data, Some(".profile")).unwrap().title, ".profile");
    assert_eq!(XPTParser::parse(&data, None).unwrap().title, "XPT Dataset");
    assert_eq!(XPTParser::decode(&data, Some("stem".to_string())).unwrap().title, "stem");
    assert_eq!(XPTParser::decode(&data, Some(String::new())).unwrap().title, "XPT Dataset");
    assert_eq!(XPTParser::decode(&data, None).unwrap().title, "XPT Dataset");
}

#[test]
fn short_buffer_is_too_small() {
    assert_eq!(XPTParser::parse(&[], None).unwrap_err(), XptError::TooSmall { length: 0 });
    assert_eq!(
        XPTParser::parse(&NAMESTR[..79], None).unwrap_err(),
        XptError::TooSmall { length: 79 }
    );
}

#[test]
fn missing_markers_are_reported() {
    let blank = vec![b' '; 80];
    assert_eq!(
        XPTParser::parse(&blank, None).unwrap_err(),
        XptError::HeaderNotFound(HeaderKind::Namestr)
    );
    assert_eq!(
        XPTParser::parse(OBS, None).unwrap_err(),
        XptError::HeaderNotFound(HeaderKind::Namestr)
    );
    assert_eq!(
        XPTParser::parse(NAMESTR, None).unwrap_err(),
        XptError::HeaderNotFound(HeaderKind::Obs)
    );
}

#[test]
fn observations_in_front_of_descriptors_are_refused() {
    let mut data = OBS.to_vec();
    data.extend_from_slice(NAMESTR);
    data.extend(descriptor(1, 8, 1, "A", ""));
    assert_eq!(
        XPTParser::parse(&data, None).unwrap_err(),
        XptError::InvalidHeaderRange { namestr_at: 80, obs_at: 0 }
    );
    // the second marker right at the boundary after the first leaves an empty block
    let mut data = NAMESTR.to_vec();
    data.extend_from_slice(OBS);
    assert_eq!(
        XPTParser::parse(&data, None).unwrap_err(),
        XptError::InvalidHeaderRange { namestr_at: 0, obs_at: 80 }
    );
    // the second marker before the boundary
    let mut data = NAMESTR[..48].to_vec();
    data.extend_from_slice(OBS);
    assert_eq!(
        XPTParser::parse(&data, None).unwrap_err(),
        XptError::InvalidHeaderRange { namestr_at: 0, obs_at: 48 }
    );
}

#[test]
fn block_below_one_descriptor_is_refused() {
    let mut data = NAMESTR.to_vec();
    data.extend_from_slice(&[b' '; 80]);
    data.extend_from_slice(OBS);
    assert_eq!(
        XPTParser::parse(&data, None).unwrap_err(),
        XptError::EmptyMetadataBlock { length: 80 }
    );
    let mut data = NAMESTR.to_vec();
    data.extend_from_slice(&[0u8; 139]);
    data.extend_from_slice(OBS);
    assert_eq!(
        XPTParser::parse(&data, None).unwrap_err(),
        XptError::EmptyMetadataBlock { length: 139 }
    );
}

#[test]
fn observations_that_fit_no_stride_are_refused() {
    let mut observations = three_rows();
    observations.extend_from_slice(b"x");
    let data = file(b"", &two_columns(), &observations);
    assert_eq!(
        XPTParser::parse(&data, None).unwrap_err(),
        XptError::UnresolvableRowWidth { storage_width: 12, length: 37 }
    );
}

#[test]
fn observations_below_one_row_are_refused() {
    let data = file(b"", &two_columns(), b"");
    assert_eq!(
        XPTParser::parse(&data, None).unwrap_err(),
        XptError::ObservationTooSmall { stride: 12, length: 0 }
    );
    let data = file(b"", &two_columns(), b"      ");
    assert_eq!(
        XPTParser::parse(&data, None).unwrap_err(),
        XptError::ObservationTooSmall { stride: 12, length: 6 }
    );
}

#[test]
fn second_marker_at_the_very_end() {
    // nothing follows the marker, not even the rest of its record
    let mut data = file(b"", &two_columns(), b"");
    data.truncate(data.len() - 32);
    assert_eq!(
        XPTParser::parse(&data, None).unwrap_err(),
        XptError::ObservationTooSmall { stride: 12, length: 0 }
    );
}

#[test]
fn sections_are_cut_at_record_boundaries() {
    let data = file(b"", &two_columns(), &three_rows());
    let (block, observations) = locate_sections(&data).unwrap();
    // two descriptors and the padding up to the next record
    assert_eq!(block.len(), 320);
    assert_eq!(&block[8..12], b"NAME");
    assert_eq!(observations, &three_rows()[..]);
}

#[test]
fn markers_off_the_record_grid() {
    // the first marker starts at offset 3: its block starts at 80
    let mut data = b"abc".to_vec();
    data.extend_from_slice(&NAMESTR[..48]);
    data.resize(80, b'.');
    data.extend(descriptor(2, 2, 1, "X", ""));
    data.extend_from_slice(b"..");
    // the second marker starts at 222: the observations start at 320
    data.extend_from_slice(&OBS[..48]);
    data.resize(320, b'.');
    data.extend_from_slice(b"hiho");
    let (block, observations) = locate_sections(&data).unwrap();
    assert_eq!(block.len(), 142);
    assert_eq!(observations, b"hiho");
    let dataset = XPTParser::parse(&data, None).unwrap();
    assert_eq!(values(&dataset), [["hi"], ["ho"]]);
}

#[test]
fn error_messages() {
    assert_eq!(
        XptError::TooSmall { length: 3 }.message(),
        "File too small to be a valid XPT file"
    );
    assert_eq!(XptError::HeaderNotFound(HeaderKind::Namestr).message(), "NAMESTR header not found");
    assert_eq!(XptError::HeaderNotFound(HeaderKind::Obs).message(), "OBS header not found");
    assert_eq!(
        XptError::InvalidHeaderRange { namestr_at: 80, obs_at: 0 }.message(),
        "Invalid header positions"
    );
    assert_eq!(
        XptError::EmptyMetadataBlock { length: 0 }.message(),
        "Name string block too small"
    );
    assert_eq!(
        XptError::DescriptorParseFailure { records: 1 }.message(),
        "Variable descriptors could not be parsed"
    );
    assert_eq!(XptError::ZeroStorageWidth.message(), "Variables have zero length");
    assert_eq!(
        XptError::UnresolvableRowWidth { storage_width: 10, length: 41 }.message(),
        "Unable to determine observation width"
    );
    assert_eq!(
        XptError::ObservationTooSmall { stride: 10, length: 0 }.message(),
        "Observation data too small"
    );
}
