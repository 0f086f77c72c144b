//! The delta-chained item array and the exception-handler table.

use vstd::prelude::*;
use vstd::slice::slice_subrange;
use vstd::std_specs::iter::IteratorSpec;
use crate::ctx::{decoded_at, gread_with, TryFromCtx};
use crate::error::Error;
use crate::leb128::{lemma_read_within, read_sleb128, read_uleb128, sleb128_at, uleb128_at};

verus! {

/// A record that reports one 64-bit identifier, which the record after it
/// in an array is decoded against. The identifier is a function of the
/// record alone.
pub trait EncodedItem: Sized {
    /// The identifier of this record. A record type states it by overriding
    /// this; left as it is, it stands for some function of the record of
    /// which nothing else is known.
    open spec fn id(&self) -> u64 {
        arbitrary::<spec_fn(Self) -> u64>()(*self)
    }

    /// Returns the identifier of this record.
    fn get_id(&self) -> (id: u64)
        ensures
            id == self.id(),
    ;
}

/// A run of records, each decoded with the identifier of the one before it
/// as its context, the first with `0`.
pub struct EncodedItemArray<T> {
    inner: Vec<T>,
}

impl<T> View for EncodedItemArray<T> {
    type V = Seq<T>;

    closed spec fn view(&self) -> Seq<T> {
        self.inner@
    }
}

impl<T: EncodedItem> EncodedItemArray<T> {
    /// Hands the records out, in the order in which they were decoded.
    pub fn into_iter(self) -> (iter: std::vec::IntoIter<T>)
        ensures
            iter.remaining() == self@,
    {
        broadcast use vstd::std_specs::vec::axiom_spec_into_iter;
        self.inner.into_iter()
    }
}

/// What an item array is decoded with: the container that the bytes belong
/// to, and the number of records to decode.
pub struct EncodedItemArrayCtx<'a, D> {
    dex: &'a D,
    len: usize,
}

impl<'a, D> EncodedItemArrayCtx<'a, D> {
    /// The container that the bytes belong to.
    pub closed spec fn spec_dex(&self) -> &'a D {
        self.dex
    }

    /// The number of records to decode.
    pub closed spec fn spec_len(&self) -> usize {
        self.len
    }

    /// A context for decoding `len` records of `dex`.
    pub fn new(dex: &'a D, len: usize) -> (ctx: Self)
        ensures
            ctx.spec_dex() == dex,
            ctx.spec_len() == len,
    {
        Self { dex, len }
    }
}

impl<'a, D> Copy for EncodedItemArrayCtx<'a, D> {

}

impl<'a, D> Clone for EncodedItemArrayCtx<'a, D> {
    fn clone(&self) -> (copy: Self)
        ensures
            copy == *self,
    {
        Self { dex: self.dex, len: self.len }
    }
}

/// The result of decoding `count` records from `offset` on, the first under
/// `prev`: the records, and the offset at which the last one ends.
pub open spec fn decoded_items<T: EncodedItem + TryFromCtx<u64>>(
    source: Seq<u8>,
    offset: nat,
    count: nat,
    prev: u64,
) -> Result<(Seq<T>, nat), Error>
    decreases count,
{
    if count == 0 {
        Ok((Seq::empty(), offset))
    } else {
        match decoded_at::<u64, T>(source, offset, prev) {
            Err(e) => Err(e),
            Ok((item, size)) => match decoded_items::<T>(
                source,
                offset + size,
                (count - 1) as nat,
                item.id(),
            ) {
                Err(e) => Err(e),
                Ok((rest, end)) => Ok((seq![item] + rest, end)),
            },
        }
    }
}

/// `rest` with the records `done` in front of what it decoded.
pub open spec fn after<A>(done: Seq<A>, rest: Result<(Seq<A>, nat), Error>) -> Result<
    (Seq<A>, nat),
    Error,
> {
    match rest {
        Ok((items, end)) => Ok((done + items, end)),
        Err(e) => Err(e),
    }
}

impl<T: EncodedItem + TryFromCtx<u64>> EncodedItemArray<T> {
    /// Decodes as many records as `ctx` asks for from the front of `source`.
    /// Returns them with the number of bytes they take together, or the
    /// failure of the first record that fails.
    pub fn try_from_ctx<'a, D>(source: &[u8], ctx: EncodedItemArrayCtx<'a, D>) -> (r: Result<
        (Self, usize),
        Error,
    >)
        ensures
            match decoded_items::<T>(source@, 0, ctx.spec_len() as nat, 0) {
                Ok((items, size)) => r matches Ok((array, n)) && array@ == items && n == size,
                Err(e) => r matches Err(f) && f == e,
            },
            r matches Ok((_, n)) ==> n <= source@.len(),
    {
        let len = ctx.len;
        let mut prev: u64 = 0;
        let mut offset: usize = 0;
        let room = if len < source.len() {
            len
        } else {
            source.len()
        };
        let mut inner: Vec<T> = Vec::with_capacity(room);
        let mut i: usize = 0;
        while i < len
            invariant
                i <= len,
                len == ctx.spec_len(),
                offset <= source@.len(),
                decoded_items::<T>(source@, 0, len as nat, 0) == after(
                    inner@,
                    decoded_items::<T>(source@, offset as nat, (len - i) as nat, prev),
                ),
            decreases len - i,
        {
            let ghost done = inner@;
            let ghost here = offset as nat;
            match gread_with::<u64, T>(source, &mut offset, prev) {
                Ok(item) => {
                    prev = item.get_id();
                    inner.push(item);
                },
                Err(e) => {
                    return Err(e);
                },
            }
            i += 1;
            proof {
                let rest = decoded_items::<T>(source@, offset as nat, (len - i) as nat, prev);
                if let Ok((items, end)) = rest {
                    assert(done + (seq![inner@.last()] + items) =~= inner@ + items);
                }
            }
        }
        assert(inner@ + Seq::<T>::empty() =~= inner@);
        Ok((EncodedItemArray { inner }, offset))
    }
}

/// One link of a catch-handler block: the type caught, as an index into the
/// type pool, and the address of the code that handles it.
#[derive(Clone, Copy, Debug, PartialEq, Eq, Structural)]
pub struct EncodedTypeAddrPair {
    pub type_id: u32,
    pub addr: u64,
}

/// What decoding a type-address pair at the front of `s` gives: two unsigned
/// integers one after the other, the first cut to 32 bits.
pub open spec fn decoded_pair(s: Seq<u8>) -> Result<(EncodedTypeAddrPair, nat), Error> {
    match uleb128_at(s, 0) {
        Err(e) => Err(e),
        Ok((type_id, n)) => match uleb128_at(s, n) {
            Err(e) => Err(e),
            Ok((addr, m)) => Ok((EncodedTypeAddrPair { type_id: type_id as u32, addr }, n + m)),
        },
    }
}

impl TryFromCtx<()> for EncodedTypeAddrPair {
    open spec fn decoded(source: Seq<u8>, ctx: ()) -> Result<(Self, nat), Error> {
        decoded_pair(source)
    }

    fn try_from_ctx(source: &[u8], _ctx: ()) -> (r: Result<(Self, usize), Error>) {
        let mut offset: usize = 0;
        proof {
            lemma_read_within(source@, 0);
        }
        let type_id = match read_uleb128(source, &mut offset) {
            Ok(v) => v,
            Err(e) => { return Err(e); },
        };
        proof {
            lemma_read_within(source@, offset as nat);
        }
        let addr = match read_uleb128(source, &mut offset) {
            Ok(v) => v,
            Err(e) => { return Err(e); },
        };
        Ok((EncodedTypeAddrPair { type_id: #[verifier::truncate] (type_id as u32), addr }, offset))
    }
}

/// One entry of a catch-handler block.
#[derive(Clone, Copy, Debug, PartialEq, Eq, Structural)]
pub enum Handler {
    /// Catches everything, at this address.
    CatchAll(usize),
    /// Catches one type.
    Type(EncodedTypeAddrPair),
}

/// One catch-handler block: its typed handlers in the order of the
/// encoding, then the catch-all handler if the block has one.
#[derive(Debug)]
pub struct EncodedCatchHandler {
    pub handlers: Vec<Handler>,
}

impl View for EncodedCatchHandler {
    type V = Seq<Handler>;

    open spec fn view(&self) -> Seq<Handler> {
        self.handlers@
    }
}

/// The number of typed handlers in a block whose size field is `size`.
pub open spec fn typed_count(size: i64) -> nat {
    if size < 0 {
        (-size) as nat
    } else {
        size as nat
    }
}

/// The result of decoding `count` type-address pairs from `offset` on: a
/// typed handler for each, and the offset at which the last one ends.
pub open spec fn decoded_pairs(source: Seq<u8>, offset: nat, count: nat) -> Result<
    (Seq<Handler>, nat),
    Error,
>
    decreases count,
{
    if count == 0 {
        Ok((Seq::empty(), offset))
    } else {
        match decoded_at::<(), EncodedTypeAddrPair>(source, offset, ()) {
            Err(e) => Err(e),
            Ok((pair, size)) => match decoded_pairs(source, offset + size, (count - 1) as nat) {
                Err(e) => Err(e),
                Ok((rest, end)) => Ok((seq![Handler::Type(pair)] + rest, end)),
            },
        }
    }
}

/// What decoding a catch-handler block at the front of `source` gives: a
/// signed size, that many pairs in absolute value, and, where the size is
/// not positive, the address of a catch-all handler.
pub open spec fn decoded_handler(source: Seq<u8>) -> Result<(Seq<Handler>, nat), Error> {
    match sleb128_at(source, 0) {
        Err(e) => Err(e),
        Ok((size, n)) => match decoded_pairs(source, n, typed_count(size)) {
            Err(e) => Err(e),
            Ok((typed, end)) => if size > 0 {
                Ok((typed, end))
            } else {
                match uleb128_at(source, end) {
                    Err(e) => Err(e),
                    Ok((addr, m)) => Ok((typed.push(Handler::CatchAll(addr as usize)), end + m)),
                }
            },
        },
    }
}

impl EncodedCatchHandler {
    /// Decodes one catch-handler block from the front of `source`. Returns
    /// it with the number of bytes it takes.
    pub fn try_from_ctx(source: &[u8], _ctx: ()) -> (r: Result<(Self, usize), Error>)
        ensures
            match decoded_handler(source@) {
                Ok((handlers, size)) => r matches Ok((block, n)) && block@ == handlers && n
                    == size,
                Err(e) => r matches Err(f) && f == e,
            },
            r matches Ok((_, n)) ==> n <= source@.len(),
    {
        let mut offset: usize = 0;
        proof {
            lemma_read_within(source@, 0);
        }
        let size = match read_sleb128(source, &mut offset) {
            Ok(v) => v,
            Err(e) => {
                return Err(e);
            },
        };
        let count: u64 = if size >= 0 {
            size as u64
        } else if size == i64::MIN {
            0x8000_0000_0000_0000
        } else {
            (-size) as u64
        };
        let room = if count < source.len() as u64 {
            count as usize
        } else {
            source.len()
        };
        let mut handlers: Vec<Handler> = Vec::with_capacity(room);
        let ghost start = offset as nat;
        let mut i: u64 = 0;
        while i < count
            invariant
                i <= count,
                offset <= source@.len(),
                sleb128_at(source@, 0) == Ok::<(i64, nat), Error>((size, start)),
                count == typed_count(size),
                decoded_pairs(source@, start, count as nat) == after(
                    handlers@,
                    decoded_pairs(source@, offset as nat, (count - i) as nat),
                ),
            decreases count - i,
        {
            let ghost done = handlers@;
            match gread_with::<(), EncodedTypeAddrPair>(source, &mut offset, ()) {
                Ok(pair) => {
                    handlers.push(Handler::Type(pair));
                },
                Err(e) => {
                    return Err(e);
                },
            }
            i += 1;
            proof {
                let rest = decoded_pairs(source@, offset as nat, (count - i) as nat);
                if let Ok((items, end)) = rest {
                    assert(done + (seq![handlers@.last()] + items) =~= handlers@ + items);
                }
            }
        }
        assert(handlers@ + Seq::<Handler>::empty() =~= handlers@);
        if size <= 0 {
            proof {
                lemma_read_within(source@, offset as nat);
            }
            let addr = match read_uleb128(source, &mut offset) {
                Ok(v) => v,
                Err(e) => {
                    return Err(e);
                },
            };
            handlers.push(Handler::CatchAll(#[verifier::truncate] (addr as usize)));
        }
        Ok((EncodedCatchHandler { handlers }, offset))
    }
}

/// What decoding a catch-handler block gives on the bytes of `source` from
/// `offset` on; out of data where that is nothing.
pub open spec fn decoded_handler_at(source: Seq<u8>, offset: nat) -> Result<
    (Seq<Handler>, nat),
    Error,
> {
    if offset >= source.len() {
        Err(Error::OutOfData)
    } else {
        decoded_handler(source.skip(offset as int))
    }
}

/// The result of decoding `count` catch-handler blocks from `offset` on:
/// each with the offset it starts at, and the offset at which the last ends.
pub open spec fn decoded_blocks(source: Seq<u8>, offset: nat, count: nat) -> Result<
    (Seq<(usize, Seq<Handler>)>, nat),
    Error,
>
    decreases count,
{
    if count == 0 {
        Ok((Seq::empty(), offset))
    } else {
        match decoded_handler_at(source, offset) {
            Err(e) => Err(e),
            Ok((block, size)) => match decoded_blocks(source, offset + size, (count - 1) as nat) {
                Err(e) => Err(e),
                Ok((rest, end)) => Ok((seq![(offset as usize, block)] + rest, end)),
            },
        }
    }
}

/// What decoding a catch-handler list at the front of `source` gives: a
/// count, then that many blocks.
pub open spec fn decoded_handler_list(source: Seq<u8>) -> Result<
    (Seq<(usize, Seq<Handler>)>, nat),
    Error,
> {
    match uleb128_at(source, 0) {
        Err(e) => Err(e),
        Ok((count, n)) => decoded_blocks(source, n, count as nat),
    }
}

/// The catch-handler blocks of one code body, each with the offset at which
/// it starts, counted in bytes from the start of the list.
#[derive(Debug)]
pub struct EncodedCatchHandlerList {
    inner: Vec<(usize, EncodedCatchHandler)>,
}

/// Each entry with its block as a sequence of handlers.
pub open spec fn blocks_view(entries: Seq<(usize, EncodedCatchHandler)>) -> Seq<
    (usize, Seq<Handler>),
> {
    Seq::new(entries.len(), |i: int| (entries[i].0, entries[i].1@))
}

impl View for EncodedCatchHandlerList {
    type V = Seq<(usize, Seq<Handler>)>;

    closed spec fn view(&self) -> Seq<(usize, Seq<Handler>)> {
        blocks_view(self.inner@)
    }
}

impl EncodedCatchHandlerList {
    /// The entries as they are held.
    pub closed spec fn entries(&self) -> Seq<(usize, EncodedCatchHandler)> {
        self.inner@
    }

    /// The view is the entries, each block by its own view.
    pub proof fn lemma_view_of_entries(&self)
        ensures
            self@ == blocks_view(self.entries()),
    {
    }

    /// Walks the entries in the order of the encoding.
    pub fn iter(&self) -> (iter: std::slice::Iter<'_, (usize, EncodedCatchHandler)>)
        ensures
            iter.remaining() == self.entries().as_ref(),
    {
        broadcast use vstd::std_specs::slice::axiom_spec_slice_iter;
        self.inner.iter()
    }

    /// Decodes one block at the cursor `offset` and moves the cursor past it.
    fn gread(source: &[u8], offset: &mut usize) -> (r: Result<EncodedCatchHandler, Error>)
        ensures
            match decoded_handler_at(source@, *old(offset) as nat) {
                Ok((handlers, size)) => r matches Ok(block) && block@ == handlers
                    && *final(offset) == *old(offset) + size
                    && *final(offset) <= source@.len(),
                Err(e) => r matches Err(f) && f == e && *final(offset) == *old(offset),
            },
    {
        let start = *offset;
        if start >= source.len() {
            return Err(Error::OutOfData);
        }
        let rest = slice_subrange(source, start, source.len());
        match EncodedCatchHandler::try_from_ctx(rest, ()) {
            Ok((block, size)) => {
                *offset = start + size;
                Ok(block)
            },
            Err(e) => Err(e),
        }
    }

    /// Decodes a catch-handler list from the front of `source`. Returns it
    /// with the number of bytes it takes.
    pub fn try_from_ctx(source: &[u8], _ctx: ()) -> (r: Result<(Self, usize), Error>)
        ensures
            match decoded_handler_list(source@) {
                Ok((blocks, size)) => r matches Ok((list, n)) && list@ == blocks && n == size,
                Err(e) => r matches Err(f) && f == e,
            },
            r matches Ok((_, n)) ==> n <= source@.len(),
    {
        let mut offset: usize = 0;
        proof {
            lemma_read_within(source@, 0);
        }
        let count = match read_uleb128(source, &mut offset) {
            Ok(v) => v,
            Err(e) => {
                return Err(e);
            },
        };
        let room = if count < source.len() as u64 {
            count as usize
        } else {
            source.len()
        };
        let mut inner: Vec<(usize, EncodedCatchHandler)> = Vec::with_capacity(room);
        let ghost start = offset as nat;
        let mut i: u64 = 0;
        while i < count
            invariant
                i <= count,
                offset <= source@.len(),
                uleb128_at(source@, 0) == Ok::<(u64, nat), Error>((count, start)),
                decoded_blocks(source@, start, count as nat) == after(
                    blocks_view(inner@),
                    decoded_blocks(source@, offset as nat, (count - i) as nat),
                ),
            decreases count - i,
        {
            let ghost done = blocks_view(inner@);
            let off = offset;
            match Self::gread(source, &mut offset) {
                Ok(block) => {
                    inner.push((off, block));
                },
                Err(e) => {
                    return Err(e);
                },
            }
            i += 1;
            proof {
                let rest = decoded_blocks(source@, offset as nat, (count - i) as nat);
                assert(blocks_view(inner@) =~= done.push((off, inner@.last().1@)));
                if let Ok((items, end)) = rest {
                    assert(done + (seq![(off, inner@.last().1@)] + items) =~= blocks_view(inner@)
                        + items);
                }
            }
        }
        assert(blocks_view(inner@) + Seq::<(usize, Seq<Handler>)>::empty() =~= blocks_view(
            inner@,
        ));
        Ok((EncodedCatchHandlerList { inner }, offset))
    }
}

} // verus!
