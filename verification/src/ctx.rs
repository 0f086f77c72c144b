//! Decoding with a context: the one operation that every record type offers,
//! and reading such a record at a cursor.

use vstd::prelude::*;
use vstd::slice::slice_subrange;
use crate::error::Error;

verus! {

/// A record that can be decoded from the front of a byte slice, given a
/// context value of type `Ctx`. What comes out is a function of the bytes
/// and the context alone, and the bytes consumed are bytes of the slice:
/// every implementation, verified or not, owes both.
pub trait TryFromCtx<Ctx>: Sized {
    /// What decoding `source` under `ctx` gives: the record and the number
    /// of bytes it takes, or the failure. A record type states it by
    /// overriding this; left as it is, it stands for some function of the
    /// bytes and the context of which nothing else is known.
    open spec fn decoded(source: Seq<u8>, ctx: Ctx) -> Result<(Self, nat), Error> {
        arbitrary::<spec_fn(Seq<u8>, Ctx) -> Result<(Self, nat), Error>>()(source, ctx)
    }

    /// Decodes one record from the front of `source`. Returns it with the
    /// number of bytes consumed, which are bytes of `source`.
    fn try_from_ctx(source: &[u8], ctx: Ctx) -> (r: Result<(Self, usize), Error>)
        ensures
            agrees(r, Self::decoded(source@, ctx)),
            r matches Ok((_, size)) ==> size <= source@.len(),
    ;
}

/// An executable result and its specification are the same but for the
/// type of the byte count.
pub open spec fn agrees<T>(r: Result<(T, usize), Error>, spec: Result<(T, nat), Error>) -> bool {
    match (r, spec) {
        (Ok((value, size)), Ok((spec_value, spec_size))) => value == spec_value && size
            == spec_size,
        (Err(e), Err(spec_e)) => e == spec_e,
        _ => false,
    }
}

/// What decoding gives on the bytes of `source` from `offset` on. Reading at
/// or past the end is out of data, whatever the record.
pub open spec fn decoded_at<Ctx, T: TryFromCtx<Ctx>>(
    source: Seq<u8>,
    offset: nat,
    ctx: Ctx,
) -> Result<(T, nat), Error> {
    if offset >= source.len() {
        Err(Error::OutOfData)
    } else {
        T::decoded(source.skip(offset as int), ctx)
    }
}

/// Decodes one record at the cursor `offset` and moves the cursor past it.
/// A failure leaves the cursor where it was.
pub fn gread_with<Ctx, T: TryFromCtx<Ctx>>(source: &[u8], offset: &mut usize, ctx: Ctx) -> (r:
    Result<T, Error>)
    ensures
        match decoded_at::<Ctx, T>(source@, *old(offset) as nat, ctx) {
            Ok((value, size)) => r == Ok::<T, Error>(value) && *final(offset) == *old(offset)
                + size,
            Err(e) => r == Err::<T, Error>(e) && *final(offset) == *old(offset),
        },
        *final(offset) <= source@.len() || *final(offset) == *old(offset),
{
    let start = *offset;
    if start >= source.len() {
        return Err(Error::OutOfData);
    }
    let rest = slice_subrange(source, start, source.len());
    match T::try_from_ctx(rest, ctx) {
        Ok((value, size)) => {
            *offset = start + size;
            Ok(value)
        },
        Err(e) => Err(e),
    }
}

} // verus!
