//! Copying fixed-size records out of an image.
use vstd::prelude::*;
use vstd::slice::slice_subrange;
use plain::Error as PlainError;

verus! {

#[verifier::external_type_specification]
#[verifier::external_body]
pub struct ExPlainError(PlainError);

/// Calls `plain::copy_from_bytes` with a byte slice as the destination.
///
/// Trusted: the call fails exactly when `bytes` is shorter than `into`
/// (a byte slice has alignment 1, so only the length test can fail), and
/// otherwise fills `into` with the first `into.len()` bytes of `bytes`; on
/// failure it writes nothing.
#[verifier::external_body]
fn copy_from_bytes(into: &mut [u8], bytes: &[u8]) -> (res: core::result::Result<(), PlainError>)
    ensures
        res is Ok <==> old(into)@.len() <= bytes@.len(),
        res is Ok ==> final(into)@ == bytes@.subrange(0, old(into)@.len() as int),
        res is Err ==> final(into)@ == old(into)@,
{
    plain::copy_from_bytes(into, bytes)
}

/// Copies into `into` as many bytes of `base` as it holds, from `start` on;
/// fails, leaving `into` as it was, when they do not all lie within `base`.
pub fn read_record(base: &[u8], start: usize, into: &mut [u8]) -> (res: core::result::Result<
    (),
    crate::Error,
>)
    ensures
        res is Ok <==> start + old(into)@.len() <= base@.len(),
        res is Ok ==> final(into)@ == base@.subrange(start as int, start + old(into)@.len()),
        res is Err ==> final(into)@ == old(into)@,
{
    if start > base.len() {
        return Err(crate::Error);
    }
    let tail = slice_subrange(base, start, base.len());
    match copy_from_bytes(into, tail) {
        Ok(()) => {
            assert(into@ =~= base@.subrange(start as int, start + old(into)@.len()));
            Ok(())
        },
        Err(_) => Err(crate::Error),
    }
}

} // verus!
