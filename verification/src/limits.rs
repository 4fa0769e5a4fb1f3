//! Defensive geometry and allocation limits for caller-controlled render state.

use vstd::prelude::*;

use std::collections::TryReserveError;

use crate::error::Error;

verus! {

/// A terminal dimension larger than `u16::MAX` is not meaningful to the
/// supported hosts and makes zero-area frames an easy way around an area limit.
pub const MAX_CELL_DIMENSION: usize = 65535;

/// Four million cells is orders of magnitude larger than an interactive
/// terminal while keeping the worst-case memory bounded.
pub const MAX_CELLS: usize = 4 * 1024 * 1024;

/// Device-pixel rendering has several transient copies; its raster is capped
/// separately.
pub const MAX_DEVICE_PIXELS: usize = 16 * 1024 * 1024;

/// No render call constructs an arbitrarily large escape or string payload.
pub const MAX_OUTPUT_BYTES: usize = 256 * 1024 * 1024;

/// `Vec::try_reserve_exact`: asks the allocator for room for `count` more
/// elements. Claimed of it, as its documentation states: the elements never
/// change, and the call fails when the capacity it needs — the length plus
/// `count` — overflows. Otherwise whether the allocator obliges is the
/// machine's business, and the outcome is left open.
#[verifier::external_body]
fn vec_try_reserve_exact<T>(values: &mut Vec<T>, count: usize) -> (r: Result<(), TryReserveError>)
    ensures
        final(values)@ == old(values)@,
        old(values)@.len() + count > usize::MAX ==> r is Err,
{
    values.try_reserve_exact(count)
}

/// `String::try_reserve_exact`: asks the allocator for room for `bytes` more
/// bytes. The outcome is left open, as for vectors; the text never changes.
#[verifier::external_body]
fn string_try_reserve_exact(value: &mut String, bytes: usize) -> (r: Result<(), TryReserveError>)
    ensures
        final(value)@ == old(value)@,
{
    value.try_reserve_exact(bytes)
}

/// The refusal a dimension check gives for `value` against `limit`, if any.
pub open spec fn spec_dimension(what: &'static str, value: usize, limit: usize) -> Result<(), Error> {
    if value > limit {
        Err(Error::DimensionTooLarge { what, requested: value, limit })
    } else {
        Ok(())
    }
}

/// Refuses `value` when it is over `limit`.
pub fn dimension(what: &'static str, value: usize, limit: usize) -> (r: Result<(), Error>)
    ensures
        r == spec_dimension(what, value, limit),
{
    if value > limit {
        return Err(Error::DimensionTooLarge { what, requested: value, limit });
    }
    Ok(())
}

/// The outcome of an area check: the product, or the refusal — with
/// `usize::MAX` as the request when the product overflows.
pub open spec fn spec_area(what: &'static str, width: usize, height: usize, limit: usize) -> Result<
    usize,
    Error,
> {
    if width * height > usize::MAX {
        Err(Error::DimensionTooLarge { what, requested: usize::MAX, limit })
    } else if width * height > limit {
        Err(Error::DimensionTooLarge { what, requested: (width * height) as usize, limit })
    } else {
        Ok((width * height) as usize)
    }
}

/// The cell count of a `width × height` area, refused when the product
/// overflows or exceeds `limit`.
pub fn area(what: &'static str, width: usize, height: usize, limit: usize) -> (r: Result<
    usize,
    Error,
>)
    ensures
        r == spec_area(what, width, height, limit),
{
    let requested = match width.checked_mul(height) {
        Some(product) => product,
        None => {
            return Err(Error::DimensionTooLarge { what, requested: usize::MAX, limit });
        },
    };
    match dimension(what, requested, limit) {
        Ok(()) => Ok(requested),
        Err(error) => Err(error),
    }
}

/// The outcome of sizing a frame of `width × height` cells.
pub open spec fn spec_frame_cells(width: usize, height: usize) -> Result<usize, Error> {
    if width > MAX_CELL_DIMENSION {
        Err(
            Error::DimensionTooLarge {
                what: "frame width",
                requested: width,
                limit: MAX_CELL_DIMENSION,
            },
        )
    } else if height > MAX_CELL_DIMENSION {
        Err(
            Error::DimensionTooLarge {
                what: "frame height",
                requested: height,
                limit: MAX_CELL_DIMENSION,
            },
        )
    } else {
        spec_area("frame cell count", width, height, MAX_CELLS)
    }
}

/// The cell count of a frame, refused when a side is wider than a terminal
/// can be or the area is over [`MAX_CELLS`].
pub fn frame_cells(width: usize, height: usize) -> (r: Result<usize, Error>)
    ensures
        r == spec_frame_cells(width, height),
        r is Ok ==> r->Ok_0 == width * height && r->Ok_0 <= MAX_CELLS,
{
    match dimension("frame width", width, MAX_CELL_DIMENSION) {
        Ok(()) => {},
        Err(error) => {
            return Err(error);
        },
    }
    match dimension("frame height", height, MAX_CELL_DIMENSION) {
        Ok(()) => {},
        Err(error) => {
            return Err(error);
        },
    }
    area("frame cell count", width, height, MAX_CELLS)
}

/// Reserves room for `count` more elements, reporting an allocation failure
/// as [`Error::AllocationFailed`] for `what` rather than aborting. A request
/// whose capacity overflows always fails so; otherwise the outcome is the
/// allocator's.
pub fn reserve<T>(values: &mut Vec<T>, count: usize, what: &'static str) -> (r: Result<(), Error>)
    ensures
        final(values)@ == old(values)@,
        r is Ok || r == Err::<(), Error>(Error::AllocationFailed { what }),
        old(values)@.len() + count > usize::MAX ==> r == Err::<(), Error>(
            Error::AllocationFailed { what },
        ),
{
    match vec_try_reserve_exact(values, count) {
        Ok(()) => Ok(()),
        Err(_) => Err(Error::AllocationFailed { what }),
    }
}

/// Reserves room for `bytes` more bytes of output: refused outright past
/// [`MAX_OUTPUT_BYTES`], and reported as [`Error::AllocationFailed`] when the
/// allocator declines.
pub fn reserve_string(value: &mut String, bytes: usize, what: &'static str) -> (r: Result<(), Error>)
    ensures
        final(value)@ == old(value)@,
        bytes > MAX_OUTPUT_BYTES ==> r == spec_dimension(what, bytes, MAX_OUTPUT_BYTES),
        bytes <= MAX_OUTPUT_BYTES ==> (r is Ok || r == Err::<(), Error>(
            Error::AllocationFailed { what },
        )),
{
    match dimension(what, bytes, MAX_OUTPUT_BYTES) {
        Ok(()) => {},
        Err(error) => {
            return Err(error);
        },
    }
    match string_try_reserve_exact(value, bytes) {
        Ok(()) => Ok(()),
        Err(_) => Err(Error::AllocationFailed { what }),
    }
}

} // verus!
