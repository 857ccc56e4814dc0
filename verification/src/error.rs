//! Failures of a decode.

use vstd::prelude::*;

verus! {

/// The two section markers that a transport file must contain.
#[derive(Clone, Copy, Debug, PartialEq, Eq, Structural)]
pub enum HeaderKind {
    /// The marker in front of the variable descriptors.
    Namestr,
    /// The marker in front of the observations.
    Obs,
}

/// Why a buffer could not be decoded, with the offsets and counts that
/// show where. No failure is worth a retry: the input is static.
#[derive(Clone, Copy, Debug, PartialEq, Eq, Structural)]
pub enum XptError {
    /// The buffer, of `length` bytes, is shorter than one fixed record.
    TooSmall { length: usize },
    /// A required section marker does not occur in the buffer.
    HeaderNotFound(HeaderKind),
    /// The descriptor block would end at or before its start: the second
    /// marker, at `obs_at`, does not start after the record boundary that
    /// follows the first marker, at `namestr_at`.
    InvalidHeaderRange { namestr_at: usize, obs_at: usize },
    /// The descriptor block, of `length` bytes, is shorter than one
    /// descriptor record.
    EmptyMetadataBlock { length: usize },
    /// Not one of the `records` descriptor records could be parsed.
    DescriptorParseFailure { records: usize },
    /// The variables' lengths sum to zero.
    ZeroStorageWidth,
    /// No candidate stride for cells of `storage_width` bytes in all
    /// divides the `length` bytes of the observations or leaves only
    /// filler.
    UnresolvableRowWidth { storage_width: u128, length: usize },
    /// The observations, of `length` bytes, hold less than one row of
    /// `stride` bytes.
    ObservationTooSmall { stride: u128, length: usize },
}

impl XptError {
    /// The text that a host shows for this failure.
    pub fn message(&self) -> (text: &'static str)
        ensures
            text@ == self.message_text(),
    {
        match self {
            XptError::TooSmall { .. } => "File too small to be a valid XPT file",
            XptError::HeaderNotFound(HeaderKind::Namestr) => "NAMESTR header not found",
            XptError::HeaderNotFound(HeaderKind::Obs) => "OBS header not found",
            XptError::InvalidHeaderRange { .. } => "Invalid header positions",
            XptError::EmptyMetadataBlock { .. } => "Name string block too small",
            XptError::DescriptorParseFailure { .. } => "Variable descriptors could not be parsed",
            XptError::ZeroStorageWidth => "Variables have zero length",
            XptError::UnresolvableRowWidth { .. } => "Unable to determine observation width",
            XptError::ObservationTooSmall { .. } => "Observation data too small",
        }
    }

    /// The message of each failure, as a sequence of characters.
    pub open spec fn message_text(&self) -> Seq<char> {
        match *self {
            XptError::TooSmall { .. } => "File too small to be a valid XPT file"@,
            XptError::HeaderNotFound(HeaderKind::Namestr) => "NAMESTR header not found"@,
            XptError::HeaderNotFound(HeaderKind::Obs) => "OBS header not found"@,
            XptError::InvalidHeaderRange { .. } => "Invalid header positions"@,
            XptError::EmptyMetadataBlock { .. } => "Name string block too small"@,
            XptError::DescriptorParseFailure { .. } => "Variable descriptors could not be parsed"@,
            XptError::ZeroStorageWidth => "Variables have zero length"@,
            XptError::UnresolvableRowWidth { .. } => "Unable to determine observation width"@,
            XptError::ObservationTooSmall { .. } => "Observation data too small"@,
        }
    }
}

} // verus!
