//! The decoder: from the bytes of a transport file to a dataset.
//!
//! A decode runs through five stages, each a function of what the stage
//! before it returned: the two sections are located, the descriptors are
//! parsed, the variables are ordered, the layout of the rows is resolved,
//! and the cells are decoded.

use crate::bytes::{
    align_up, align_within, find_bytes, first_match, lemma_first_match_found, matches_at,
};
use crate::cells::{
    decode_rows, decoded_rows, lemma_storage_width_at_least_count, storage_width, storage_width_of,
};
use crate::descriptor::{descriptors_of, parse_descriptors};
use crate::error::{HeaderKind, XptError};
use crate::layout::{lemma_layout_has_whole_rows, resolve_row_width, resolved_layout};
use crate::metadata::{
    choose_title, chosen_title, date_in_file, file_stem, find_title, is_plain_name,
    lemma_chosen_title_not_empty, optional_str, plain_stem, stem_fits, title_in_file,
    DATE_CREATED_MARKER, DATE_MODIFIED_MARKER,
};
use crate::model::{optional_text, DatasetView, XPTDataset};
use crate::numeric::lemma_decimal_is_ascii;
use crate::order::{
    lemma_ordering_exists, lemma_ordering_is_stable, order_variables, ordered_variables,
};
use crate::text::lemma_marker_not_empty;
use vstd::prelude::*;
use vstd::slice::slice_subrange;
use vstd::utf8::{encode_utf8, is_ascii_chars_encode_utf8};

verus! {

/// Decoder for SAS XPORT Version 5 transport files.
pub struct XPTParser;

/// The marker in front of the variable descriptors.
pub const NAMESTR_HEADER: &'static str = "HEADER RECORD*******NAMESTR HEADER RECORD!!!!!!!";

/// The marker in front of the observations.
pub const OBS_HEADER: &'static str = "HEADER RECORD*******OBS     HEADER RECORD!!!!!!!";

/// The least length in bytes of a transport file: one record.
pub const MIN_FILE_SIZE: usize = 80;

/// Each of the two section markers is 48 bytes long.
pub proof fn lemma_marker_lengths()
    ensures
        encode_utf8(NAMESTR_HEADER@).len() == 48,
        encode_utf8(OBS_HEADER@).len() == 48,
{
    reveal_strlit("HEADER RECORD*******NAMESTR HEADER RECORD!!!!!!!");
    reveal_strlit("HEADER RECORD*******OBS     HEADER RECORD!!!!!!!");
    is_ascii_chars_encode_utf8(NAMESTR_HEADER@);
    is_ascii_chars_encode_utf8(OBS_HEADER@);
}

/// The bytes of `data` from the record boundary after `index` on; nothing
/// where that boundary lies beyond the end.
pub open spec fn section_after(data: Seq<u8>, index: int) -> Seq<u8> {
    if align_up(index) <= data.len() {
        data.subrange(align_up(index), data.len() as int)
    } else {
        Seq::empty()
    }
}

/// The two sections of a file: the descriptor block and the observations.
///
/// The descriptor block runs from the record boundary after the first
/// marker to the start of the second marker; the observations run from
/// the record boundary after the second marker to the end.
pub open spec fn located_sections(data: Seq<u8>) -> Result<(Seq<u8>, Seq<u8>), XptError> {
    let namestr = encode_utf8(NAMESTR_HEADER@);
    let obs = encode_utf8(OBS_HEADER@);
    if data.len() < 80 {
        Err(XptError::TooSmall { length: data.len() as usize })
    } else {
        match first_match(data, namestr) {
            None => Err(XptError::HeaderNotFound(HeaderKind::Namestr)),
            Some(namestr_at) => match first_match(data, obs) {
                None => Err(XptError::HeaderNotFound(HeaderKind::Obs)),
                Some(obs_at) => {
                    let start = align_up(namestr_at + namestr.len());
                    if obs_at <= start {
                        Err(
                            XptError::InvalidHeaderRange {
                                namestr_at: namestr_at as usize,
                                obs_at: obs_at as usize,
                            },
                        )
                    } else {
                        Ok((data.subrange(start, obs_at), section_after(data, obs_at + obs.len())))
                    }
                },
            },
        }
    }
}

/// What a decode of `data` gives, where `stem` is the stem of the file's
/// name: the dataset, or the first failure on the way to it.
pub open spec fn decode_outcome(data: Seq<u8>, stem: Option<Seq<char>>) -> Result<
    DatasetView,
    XptError,
> {
    match located_sections(data) {
        Err(error) => Err(error),
        Ok((block, observations)) => {
            if block.len() < 140 {
                Err(XptError::EmptyMetadataBlock { length: block.len() as usize })
            } else {
                let variables = ordered_variables(descriptors_of(block));
                match resolved_layout(observations, storage_width(variables) as int) {
                    Err(error) => Err(error),
                    Ok((stride, kept)) => Ok(
                        DatasetView {
                            title: chosen_title(title_in_file(data), stem),
                            created_date: date_in_file(data, encode_utf8(DATE_CREATED_MARKER@)),
                            modified_date: date_in_file(data, encode_utf8(DATE_MODIFIED_MARKER@)),
                            variables,
                            rows: decoded_rows(observations, stride, kept, variables),
                        },
                    ),
                }
            }
        },
    }
}

/// What `parse` may return for `data` and a suggested name: the outcome
/// of a decode for a stem that fits the name.
pub open spec fn parses_to(
    data: Seq<u8>,
    hint: Option<Seq<char>>,
    outcome: Result<DatasetView, XptError>,
) -> bool {
    exists|stem: Option<Seq<char>>|
        outcome == #[trigger] decode_outcome(data, stem) && stem_fits(hint, stem)
}

/// The view of what a decode returned.
pub open spec fn outcome_view(outcome: Result<XPTDataset, XptError>) -> Result<
    DatasetView,
    XptError,
> {
    match outcome {
        Ok(dataset) => Ok(dataset@),
        Err(error) => Err(error),
    }
}

/// The part of `data` from the record boundary after `index` on.
fn slice_after<'a>(data: &'a [u8], index: usize) -> (section: &'a [u8])
    ensures
        section@ == section_after(data@, index as int),
{
    match align_within(index, data.len()) {
        Some(start) => slice_subrange(data, start, data.len()),
        None => slice_subrange(data, data.len(), data.len()),
    }
}

/// Locates the descriptor block and the observations.
///
/// Fails with `TooSmall` for less than one record, with `HeaderNotFound`
/// where a marker does not occur, the first marker looked for first, and
/// with `InvalidHeaderRange` where the second marker does not start
/// after the record boundary that follows the first.
pub fn locate_sections<'a>(data: &'a [u8]) -> (located: Result<(&'a [u8], &'a [u8]), XptError>)
    ensures
        match located {
            Ok((block, observations)) => located_sections(data@) == Ok::<
                (Seq<u8>, Seq<u8>),
                XptError,
            >((block@, observations@)),
            Err(error) => located_sections(data@) == Err::<(Seq<u8>, Seq<u8>), XptError>(error),
        },
{
    if data.len() < MIN_FILE_SIZE {
        return Err(XptError::TooSmall { length: data.len() });
    }
    let namestr = NAMESTR_HEADER.as_bytes();
    let obs = OBS_HEADER.as_bytes();
    proof {
        reveal_strlit("HEADER RECORD*******NAMESTR HEADER RECORD!!!!!!!");
        reveal_strlit("HEADER RECORD*******OBS     HEADER RECORD!!!!!!!");
        lemma_marker_not_empty(NAMESTR_HEADER);
        lemma_marker_not_empty(OBS_HEADER);
        lemma_first_match_found(data@, namestr@);
        lemma_first_match_found(data@, obs@);
    }
    let namestr_at = match find_bytes(data, namestr) {
        Some(at) => at,
        None => {
            return Err(XptError::HeaderNotFound(HeaderKind::Namestr));
        },
    };
    let obs_at = match find_bytes(data, obs) {
        Some(at) => at,
        None => {
            return Err(XptError::HeaderNotFound(HeaderKind::Obs));
        },
    };
    assert(matches_at(data@, namestr@, namestr_at as int));
    assert(matches_at(data@, obs@, obs_at as int));
    let start = match align_within(namestr_at + namestr.len(), obs_at) {
        Some(start) => start,
        None => {
            return Err(XptError::InvalidHeaderRange { namestr_at, obs_at });
        },
    };
    if obs_at <= start {
        return Err(XptError::InvalidHeaderRange { namestr_at, obs_at });
    }
    let block = slice_subrange(data, start, obs_at);
    let observations = slice_after(data, obs_at + obs.len());
    Ok((block, observations))
}

impl XPTParser {
    /// Decodes a transport file. `suggested_filename` is used for one
    /// thing only: its stem is the title of a dataset that the file does
    /// not name.
    ///
    /// What is returned is what `decode` returns for the stem of the
    /// name. Only the title can depend on the name, and it does so only
    /// where the file does not name the dataset. The stem of a plain
    /// name, one without directories, is known; for any other name the
    /// platform decides.
    pub fn parse(data: &[u8], suggested_filename: Option<&str>) -> (parsed: Result<
        XPTDataset,
        XptError,
    >)
        ensures
            parses_to(data@, optional_str(suggested_filename), outcome_view(parsed)),
            suggested_filename is None ==> outcome_view(parsed) == decode_outcome(data@, None),
            suggested_filename matches Some(name) ==> (is_plain_name(name@) ==> outcome_view(
                parsed,
            ) == decode_outcome(data@, Some(plain_stem(name@)))),
            parsed matches Ok(dataset) ==> dataset@.well_formed(),
    {
        let stem = match suggested_filename {
            Some(name) => file_stem(name),
            None => None,
        };
        let parsed = Self::decode(data, stem);
        assert(outcome_view(parsed) == decode_outcome(data@, optional_text(stem)));
        parsed
    }

    /// Decodes a transport file, given the stem of its name.
    ///
    /// Fails with the first of these that applies: `TooSmall` for a
    /// buffer of less than one record; `HeaderNotFound` where one of the
    /// two section markers does not occur, the marker of the descriptors
    /// looked for first; `InvalidHeaderRange` where the second marker
    /// does not start after the record boundary that follows the first;
    /// `EmptyMetadataBlock` where less than one descriptor lies between
    /// them; `UnresolvableRowWidth` where no stride fits the
    /// observations; `ObservationTooSmall` where they hold less than one
    /// row.
    pub fn decode(data: &[u8], stem: Option<String>) -> (decoded: Result<XPTDataset, XptError>)
        ensures
            outcome_view(decoded) == decode_outcome(data@, optional_text(stem)),
            decoded matches Ok(dataset) ==> dataset@.well_formed(),
    {
        proof {
            lemma_decoded_is_well_formed(data@, optional_text(stem));
        }
        let (block, observations) = match locate_sections(data) {
            Ok(sections) => sections,
            Err(error) => {
                return Err(error);
            },
        };
        let records = match parse_descriptors(block) {
            Ok(records) => records,
            Err(error) => {
                return Err(error);
            },
        };
        let variables = order_variables(&records);
        let width = storage_width_of(&variables);
        let layout = match resolve_row_width(observations, width) {
            Ok(layout) => layout,
            Err(error) => {
                return Err(error);
            },
        };
        proof {
            lemma_layout_has_whole_rows(
                observations@,
                width as int,
                layout.stride as int,
                layout.data_len as int,
            );
            reveal_strlit("DATECREATED");
            reveal_strlit("DATEMODIFIED");
            lemma_marker_not_empty(DATE_CREATED_MARKER);
            lemma_marker_not_empty(DATE_MODIFIED_MARKER);
        }
        let rows = decode_rows(observations, layout, &variables);
        let title = choose_title(find_title(data), stem);
        let created_date = Self::infer_date(data, DATE_CREATED_MARKER.as_bytes());
        let modified_date = Self::infer_date(data, DATE_MODIFIED_MARKER.as_bytes());
        let dataset = XPTDataset { title, created_date, modified_date, variables, rows };
        assert(dataset@.variables =~= ordered_variables(descriptors_of(block@)));
        assert(dataset@.rows =~= decoded_rows(
            observations@,
            layout.stride as int,
            layout.data_len as int,
            dataset@.variables,
        ));
        Ok(dataset)
    }
}

/// A decoded dataset is well formed.
pub proof fn lemma_decoded_is_well_formed(data: Seq<u8>, stem: Option<Seq<char>>)
    ensures
        decode_outcome(data, stem) matches Ok(dataset) ==> dataset.well_formed(),
{
    if let Ok(dataset) = decode_outcome(data, stem) {
        let (block, observations) = located_sections(data)->Ok_0;
        let records = descriptors_of(block);
        let (stride, kept) = resolved_layout(
            observations,
            storage_width(dataset.variables) as int,
        )->Ok_0;
        lemma_chosen_title_not_empty(title_in_file(data), stem);
        lemma_layout_has_whole_rows(
            observations,
            storage_width(dataset.variables) as int,
            stride,
            kept,
        );
        assert forall|i: int| 0 <= i < dataset.variables.len() implies (
        #[trigger] dataset.variables[i]).well_formed() by {
            lemma_decimal_is_ascii((i + 1) as nat);
            lemma_ordering_exists(records);
        }
        assert forall|a: int, b: int| 0 <= a < b < dataset.variables.len() implies (
        #[trigger] dataset.variables[a]).position <= (#[trigger] dataset.variables[b]).position by {
            lemma_ordering_is_stable(records, a, b);
        }
    }
}

/// The failures of a decode. Two failures never come out of it: every
/// record of a descriptor block can be parsed, and the variables of a
/// block take a byte or more each.
pub proof fn lemma_failures_of_decode(data: Seq<u8>, stem: Option<Seq<char>>)
    ensures
        decode_outcome(data, stem) matches Err(error) ==> {
            ||| error is TooSmall
            ||| error is HeaderNotFound
            ||| error is InvalidHeaderRange
            ||| error is EmptyMetadataBlock
            ||| error is UnresolvableRowWidth
            ||| error is ObservationTooSmall
        },
{
    if let Ok((block, observations)) = located_sections(data) {
        if block.len() >= 140 {
            let records = descriptors_of(block);
            let variables = ordered_variables(records);
            assert forall|i: int| 0 <= i < variables.len() implies (#[trigger] variables[i]).length
                >= 1 by {}
            lemma_storage_width_at_least_count(variables);
        }
    }
}

/// A decoded dataset has as many rows as strides fit into the
/// observations: an incomplete last row is left out, and no row is
/// decoded in part.
pub proof fn lemma_rows_are_whole(data: Seq<u8>, stem: Option<Seq<char>>)
    ensures
        decode_outcome(data, stem) matches Ok(dataset) ==> {
            &&& located_sections(data) matches Ok((block, observations))
            &&& resolved_layout(observations, storage_width(dataset.variables) as int) matches Ok(
                (stride, kept),
            )
            &&& dataset.rows.len() == observations.len() as int / stride
            &&& dataset.rows.len() * stride == kept
            &&& kept <= observations.len()
            &&& storage_width(dataset.variables) <= stride
        },
{
    if let Ok(dataset) = decode_outcome(data, stem) {
        let (block, observations) = located_sections(data)->Ok_0;
        let (stride, kept) = resolved_layout(
            observations,
            storage_width(dataset.variables) as int,
        )->Ok_0;
        lemma_layout_has_whole_rows(
            observations,
            storage_width(dataset.variables) as int,
            stride,
            kept,
        );
        vstd::arithmetic::div_mod::lemma_fundamental_div_mod(kept, stride);
        vstd::arithmetic::mul::lemma_mul_is_commutative(stride, kept / stride);
    }
}

/// Decoding the same bytes twice gives the same: the same failure, or
/// datasets that are equal field for field. The one exception is the
/// title where it is taken from a suggested name with directories in it,
/// because nothing is known of the stem of such a name.
pub proof fn lemma_decoding_twice(
    data: Seq<u8>,
    hint: Option<Seq<char>>,
    first: Result<DatasetView, XptError>,
    second: Result<DatasetView, XptError>,
)
    requires
        parses_to(data, hint, first),
        parses_to(data, hint, second),
    ensures
        first is Ok <==> second is Ok,
        first matches Err(error) ==> second == first,
        first matches Ok(dataset) ==> {
            &&& second->Ok_0.variables == dataset.variables
            &&& second->Ok_0.rows == dataset.rows
            &&& second->Ok_0.created_date == dataset.created_date
            &&& second->Ok_0.modified_date == dataset.modified_date
        },
        hint is None || is_plain_name(hint->0) || title_in_file(data) is Some ==> second == first,
{
}

/// The failure of a decode does not depend on the name of the file, nor
/// does any field of the dataset but the title.
pub proof fn lemma_stem_sets_title_only(
    data: Seq<u8>,
    first: Option<Seq<char>>,
    second: Option<Seq<char>>,
)
    ensures
        match decode_outcome(data, first) {
            Ok(dataset) => decode_outcome(data, second) == Ok::<DatasetView, XptError>(
                DatasetView { title: chosen_title(title_in_file(data), second), ..dataset },
            ),
            Err(error) => decode_outcome(data, second) == Err::<DatasetView, XptError>(error),
        },
{
}

} // verus!
