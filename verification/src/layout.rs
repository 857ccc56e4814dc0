//! The layout of the observations: how many bytes lie between the starts
//! of two rows.
//!
//! A row need not be as long as its cells together: files pad rows to a
//! multiple of eight bytes, and the observations to whole records. The
//! candidates for the stride are tried in turn, and the first one that
//! fits is taken.

use crate::error::XptError;
use vstd::prelude::*;

verus! {

/// Where the rows of the observations lie.
#[derive(Debug, Clone, Copy, PartialEq, Eq, Structural)]
pub struct RowLayout {
    /// The distance in bytes from one row to the next.
    pub stride: usize,
    /// The length in bytes of the observations without trailing filler.
    pub data_len: usize,
}

/// A byte that pads the observations: NUL or space.
pub open spec fn is_fill_byte(byte: u8) -> bool {
    byte == 0 || byte == 0x20
}

/// Every byte of `bytes` is filler.
pub open spec fn is_filler(bytes: Seq<u8>) -> bool {
    forall|i: int| 0 <= i < bytes.len() ==> is_fill_byte(#[trigger] bytes[i])
}

/// `width` rounded up to the next multiple of eight.
pub open spec fn round_up_to_8(width: int) -> int {
    (width + 7) / 8 * 8
}

/// The candidates for the stride, in the order in which they are tried:
/// the storage width itself, then the storage width rounded up to a
/// multiple of eight.
pub open spec fn stride_candidates(storage_width: int) -> Seq<int> {
    seq![storage_width, round_up_to_8(storage_width)]
}

/// How much of the observations is kept where `stride` fits: all of them
/// where the stride divides their length, and else all but the incomplete
/// last row, if that is nothing but filler.
pub open spec fn kept_length(observations: Seq<u8>, stride: int) -> Option<int> {
    let remainder = observations.len() as int % stride;
    if remainder == 0 {
        Some(observations.len() as int)
    } else if is_filler(observations.skip(observations.len() - remainder)) {
        Some(observations.len() - remainder)
    } else {
        None
    }
}

/// The first candidate that fits, with what it keeps.
pub open spec fn first_fit(observations: Seq<u8>, candidates: Seq<int>) -> Option<(int, int)>
    decreases candidates.len(),
{
    if candidates.len() == 0 {
        None
    } else {
        match kept_length(observations, candidates[0]) {
            Some(kept) => Some((candidates[0], kept)),
            None => first_fit(observations, candidates.drop_first()),
        }
    }
}

/// The layout of the observations for cells of `storage_width` bytes in
/// all, or why there is none.
pub open spec fn resolved_layout(observations: Seq<u8>, storage_width: int) -> Result<
    (int, int),
    XptError,
> {
    if storage_width <= 0 {
        Err(XptError::ZeroStorageWidth)
    } else {
        match first_fit(observations, stride_candidates(storage_width)) {
            None => Err(
                XptError::UnresolvableRowWidth {
                    storage_width: storage_width as u128,
                    length: observations.len() as usize,
                },
            ),
            Some((stride, kept)) => if kept < stride {
                Err(
                    XptError::ObservationTooSmall {
                        stride: stride as u128,
                        length: observations.len() as usize,
                    },
                )
            } else {
                Ok((stride, kept))
            },
        }
    }
}

/// Whether the bytes of `data` from `start` on are all filler.
fn tail_is_filler(data: &[u8], start: usize) -> (filler: bool)
    requires
        start <= data@.len(),
    ensures
        filler == is_filler(data@.skip(start as int)),
{
    let size: usize = data.len();
    let mut at: usize = start;
    while at < size
        invariant
            start <= at <= size,
            size == data@.len(),
            forall|i: int| start <= i < at ==> is_fill_byte(#[trigger] data@[i]),
        decreases size - at,
    {
        if !(data[at] == 0 || data[at] == 0x20) {
            assert(data@.skip(start as int)[at - start] == data@[at as int]);
            return false;
        }
        at += 1;
    }
    assert forall|i: int| 0 <= i < data@.skip(start as int).len() implies is_fill_byte(
        #[trigger] data@.skip(start as int)[i],
    ) by {
        assert(data@.skip(start as int)[i] == data@[start + i]);
    }
    true
}

/// Tries one candidate for the stride.
fn try_stride(observations: &[u8], stride: u128) -> (kept: Option<usize>)
    requires
        stride > 0,
    ensures
        match kept {
            Some(length) => kept_length(observations@, stride as int) == Some(length as int),
            None => kept_length(observations@, stride as int) is None,
        },
{
    let size: usize = observations.len();
    proof {
        vstd::arithmetic::div_mod::lemma_mod_pos_bound(size as int, stride as int);
        vstd::arithmetic::div_mod::lemma_mod_decreases(size as nat, stride as nat);
    }
    let remainder: usize = (size as u128 % stride) as usize;
    if remainder == 0 {
        Some(size)
    } else if tail_is_filler(observations, size - remainder) {
        Some(size - remainder)
    } else {
        None
    }
}

/// Determines the stride of the rows and how much of the observations
/// they fill.
///
/// Fails with `ZeroStorageWidth` for a storage width of zero, with
/// `UnresolvableRowWidth` where no candidate fits, and with
/// `ObservationTooSmall` where the first that fits leaves less than one
/// row.
pub fn resolve_row_width(observations: &[u8], storage_width: u128) -> (resolved: Result<
    RowLayout,
    XptError,
>)
    ensures
        match resolved {
            Ok(layout) => resolved_layout(observations@, storage_width as int) == Ok::<
                (int, int),
                XptError,
            >((layout.stride as int, layout.data_len as int)),
            Err(error) => resolved_layout(observations@, storage_width as int) == Err::<
                (int, int),
                XptError,
            >(error),
        },
{
    if storage_width == 0 {
        return Err(XptError::ZeroStorageWidth);
    }
    let mut candidates: Vec<u128> = Vec::new();
    candidates.push(storage_width);
    if storage_width <= u128::MAX - 7 {
        candidates.push((storage_width + 7) / 8 * 8);
    }
    let ghost all = stride_candidates(storage_width as int);
    assert(all.skip(0) =~= all);
    assert(observations@.len() == observations.len());
    let mut tried: usize = 0;
    while tried < candidates.len()
        invariant
            tried <= candidates@.len(),
            1 <= candidates@.len() <= all.len(),
            candidates@.len() == 1 ==> storage_width > observations@.len(),
            all == stride_candidates(storage_width as int),
            storage_width > 0,
            forall|i: int| 0 <= i < candidates@.len() ==> (#[trigger] candidates@[i]) == all[i],
            first_fit(observations@, all) == first_fit(observations@, all.skip(tried as int)),
            tried > 0 ==> kept_length(observations@, storage_width as int) is None,
        decreases candidates@.len() - tried,
    {
        let stride: u128 = candidates[tried];
        proof {
            let rest = all.skip(tried as int);
            assert(rest[0] == all[tried as int]);
            assert(rest.drop_first() =~= all.skip(tried + 1));
        }
        match try_stride(observations, stride) {
            Some(kept) => {
                if (kept as u128) < stride {
                    return Err(
                        XptError::ObservationTooSmall { stride, length: observations.len() },
                    );
                }
                return Ok(RowLayout { stride: stride as usize, data_len: kept });
            },
            None => {},
        }
        tried += 1;
    }
    proof {
        if candidates@.len() == 1 {
            // a stride beyond any machine integer fits no better than the storage width
            lemma_wide_strides_fit_alike(observations@, all[0], all[1]);
            reveal_with_fuel(first_fit, 2);
            assert(all.skip(1)[0] == all[1]);
            assert(all.skip(1).drop_first().len() == 0);
        } else {
            assert(all.skip(tried as int).len() == 0);
        }
    }
    Err(XptError::UnresolvableRowWidth { storage_width, length: observations.len() })
}

/// Strides that are longer than the observations fit alike: both keep
/// nothing if the observations are filler, and else neither fits.
pub proof fn lemma_wide_strides_fit_alike(observations: Seq<u8>, first: int, second: int)
    requires
        first > observations.len(),
        second > observations.len(),
    ensures
        kept_length(observations, first) == kept_length(observations, second),
{
    let size = observations.len() as int;
    vstd::arithmetic::div_mod::lemma_small_mod(size as nat, first as nat);
    vstd::arithmetic::div_mod::lemma_small_mod(size as nat, second as nat);
}

/// A layout that was resolved has whole rows only: the stride is at
/// least the storage width, the rows fill the kept bytes exactly, and
/// there are as many rows as strides fit into the observations.
pub proof fn lemma_layout_has_whole_rows(
    observations: Seq<u8>,
    storage_width: int,
    stride: int,
    kept: int,
)
    requires
        resolved_layout(observations, storage_width) == Ok::<(int, int), XptError>((stride, kept)),
    ensures
        0 < storage_width <= stride <= kept <= observations.len(),
        kept % stride == 0,
        kept / stride == observations.len() as int / stride,
        kept / stride >= 1,
{
    let candidates = stride_candidates(storage_width);
    reveal_with_fuel(first_fit, 3);
    assert(candidates.drop_first()[0] == round_up_to_8(storage_width));
    assert(candidates.drop_first().drop_first().len() == 0);
    assert(stride == storage_width || stride == round_up_to_8(storage_width));
    let size = observations.len() as int;
    let remainder = size % stride;
    assert(kept == size - remainder);
    lemma_whole_rows(size, stride);
    vstd::arithmetic::div_mod::lemma_div_non_zero(kept, stride);
}

/// Taking the remainder off a length leaves a multiple of the divisor,
/// with the same quotient.
pub proof fn lemma_whole_rows(size: int, stride: int)
    requires
        size >= 0,
        stride > 0,
    ensures
        (size - size % stride) % stride == 0,
        (size - size % stride) / stride == size / stride,
{
    vstd::arithmetic::div_mod::lemma_fundamental_div_mod(size, stride);
    vstd::arithmetic::div_mod::lemma_mod_pos_bound(size, stride);
    vstd::arithmetic::mul::lemma_mul_is_commutative(stride, size / stride);
    vstd::arithmetic::div_mod::lemma_fundamental_div_mod_converse(
        size - size % stride,
        stride,
        size / stride,
        0,
    );
}

} // verus!
