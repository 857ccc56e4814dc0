//! Variable descriptors: the fixed records of 140 bytes between the two
//! section markers.

use crate::error::XptError;
use crate::text::{ascii_string, field_text};
use crate::XPTParser;
use vstd::prelude::*;

verus! {

/// Length in bytes of one descriptor record.
pub const NAME_STRING_RECORD_LENGTH: usize = 140;

/// One descriptor record, as the file gives it.
#[derive(Debug, Clone)]
pub struct NameStringRecord {
    /// 1 for a numeric variable, anything else for a character variable.
    pub var_type: u16,
    /// The declared width of a cell in bytes.
    pub length: u16,
    /// The name; may be empty.
    pub name: String,
    /// The label; may be empty.
    pub label: String,
    /// The name of the display format; read and not used.
    pub format: String,
    /// The declared ordinal position; 0 where the file declares none.
    pub position: u16,
}

/// A descriptor record as a mathematical value.
pub struct DescriptorView {
    pub var_type: nat,
    pub length: nat,
    pub name: Seq<char>,
    pub label: Seq<char>,
    pub format: Seq<char>,
    pub position: nat,
}

impl View for NameStringRecord {
    type V = DescriptorView;

    open spec fn view(&self) -> DescriptorView {
        DescriptorView {
            var_type: self.var_type as nat,
            length: self.length as nat,
            name: self.name@,
            label: self.label@,
            format: self.format@,
            position: self.position as nat,
        }
    }
}

/// The views of a vector of records.
pub open spec fn record_views(records: Seq<NameStringRecord>) -> Seq<DescriptorView> {
    Seq::new(records.len(), |i: int| records[i]@)
}

/// The number that two bytes denote, the more significant first.
pub open spec fn big_endian_16(high: u8, low: u8) -> nat {
    (high * 256 + low) as nat
}

/// What a record of at least 140 bytes describes: three numbers of 16
/// bits at offsets 0, 4 and 6, and three text fields at offsets 8, 16
/// and 56.
pub open spec fn descriptor_of(record: Seq<u8>) -> DescriptorView {
    DescriptorView {
        var_type: big_endian_16(record[0], record[1]),
        length: big_endian_16(record[4], record[5]),
        name: field_text(record, 8, 8),
        label: field_text(record, 16, 40),
        format: field_text(record, 56, 8),
        position: big_endian_16(record[6], record[7]),
    }
}

/// The `index`-th record of a descriptor block.
pub open spec fn record_at(block: Seq<u8>, index: int) -> Seq<u8> {
    block.subrange(140 * index, 140 * index + 140)
}

/// The descriptors of a block: one for each whole record in it.
pub open spec fn descriptors_of(block: Seq<u8>) -> Seq<DescriptorView> {
    Seq::new(block.len() / 140, |index: int| descriptor_of(record_at(block, index)))
}

/// Reads a number of 16 bits, the more significant byte first.
fn read_big_endian_16(data: &[u8], offset: usize) -> (value: u16)
    requires
        offset + 1 < data@.len(),
    ensures
        value == big_endian_16(data@[offset as int], data@[offset + 1]),
{
    data[offset] as u16 * 256 + data[offset + 1] as u16
}

impl XPTParser {
    /// Parses one descriptor record. A slice shorter than a record gives
    /// nothing; bytes after the record are ignored.
    pub fn parse_name_string(data: &[u8]) -> (record: Option<NameStringRecord>)
        ensures
            record is None <==> data@.len() < 140,
            record matches Some(r) ==> r@ == descriptor_of(data@),
    {
        if data.len() < NAME_STRING_RECORD_LENGTH {
            return None;
        }
        let var_type = read_big_endian_16(data, 0);
        let length = read_big_endian_16(data, 4);
        let position = read_big_endian_16(data, 6);
        let name = ascii_string(data, 8, 8);
        let label = ascii_string(data, 16, 40);
        let format = ascii_string(data, 56, 8);
        Some(NameStringRecord { var_type, length, name, label, format, position })
    }
}

/// Parses the records of a descriptor block, in the order of the file.
/// Bytes after the last whole record are ignored.
///
/// Fails with `EmptyMetadataBlock` where the block is shorter than one
/// record, and never otherwise.
pub fn parse_descriptors(block: &[u8]) -> (parsed: Result<Vec<NameStringRecord>, XptError>)
    ensures
        match parsed {
            Ok(records) => block@.len() >= 140 && record_views(records@) == descriptors_of(
                block@,
            ),
            Err(error) => block@.len() < 140 && error == (XptError::EmptyMetadataBlock {
                length: block@.len() as usize,
            }),
        },
{
    if block.len() < NAME_STRING_RECORD_LENGTH {
        return Err(XptError::EmptyMetadataBlock { length: block.len() });
    }
    let record_count: usize = block.len() / NAME_STRING_RECORD_LENGTH;
    let mut records: Vec<NameStringRecord> = Vec::new();
    let mut index: usize = 0;
    while index < record_count
        invariant
            index <= record_count,
            record_count == block@.len() / 140,
            block@.len() <= usize::MAX,
            records@.len() == index,
            forall|i: int|
                0 <= i < index ==> (#[trigger] records@[i])@ == descriptor_of(record_at(block@, i)),
        decreases record_count - index,
    {
        let start: usize = index * NAME_STRING_RECORD_LENGTH;
        let end: usize = start + NAME_STRING_RECORD_LENGTH;
        let slice = vstd::slice::slice_subrange(block, start, end);
        // a record that cannot be parsed is skipped
        match XPTParser::parse_name_string(slice) {
            Some(record) => {
                records.push(record);
            },
            None => {},
        }
        index += 1;
    }
    // every slice has the length of a record, so none was skipped
    if records.len() == 0 {
        return Err(XptError::DescriptorParseFailure { records: record_count });
    }
    assert(record_views(records@) =~= descriptors_of(block@));
    Ok(records)
}

} // verus!
