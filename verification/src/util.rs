//! What the writers share: one write to the sink, with the count it took
//! held against the count that the format needs.

use vstd::prelude::*;
use crate::error::{ErrorType, OutError};
use crate::stream::{accepted, Sink};

verus! {

/// What [`write`] reports when the sink took `taken` bytes and the format
/// needs `expected`.
pub open spec fn write_report(taken: nat, expected: usize) -> Result<(), OutError> {
    if taken == expected {
        Ok(())
    } else {
        Err(ErrorType::ShortIO { bytes: taken as usize, expected })
    }
}

/// Hands `bytes` to the sink in one operation and succeeds if the sink took
/// exactly `expected_write` of them. A sink that takes another number keeps
/// what it took, and the shortfall is reported: there is no second attempt.
pub fn write(out_bytes: &mut Sink, bytes: &[u8], expected_write: usize) -> (res: Result<
    (),
    OutError,
>)
    ensures
        final(out_bytes).data() == old(out_bytes).data() + bytes@.take(
            accepted(bytes@.len(), old(out_bytes).room()) as int,
        ),
        final(out_bytes).room() == old(out_bytes).room() - accepted(
            bytes@.len(),
            old(out_bytes).room(),
        ),
        res == write_report(accepted(bytes@.len(), old(out_bytes).room()), expected_write),
{
    let n: usize = out_bytes.write(bytes);
    if n == expected_write {
        Ok(())
    } else {
        Err(OutError::ShortIO { bytes: n, expected: expected_write })
    }
}

} // verus!
