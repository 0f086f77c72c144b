//! What holds of every decode: how much is consumed, what shape comes out,
//! and what a record was decoded from.

use vstd::prelude::*;
use crate::ctx::{decoded_at, TryFromCtx};
use crate::encoded_item::{
    after, decoded_blocks, decoded_handler, decoded_handler_at, decoded_handler_list,
    decoded_items, decoded_pair, decoded_pairs, typed_count, EncodedItem, EncodedTypeAddrPair,
    Handler,
};
use crate::error::Error;
use crate::leb128::{lemma_read_cut, lemma_read_within, sleb128_at, uleb128_at};

verus! {

/// A type-address pair takes at least two bytes, and only bytes that are there.
pub proof fn lemma_pair_within(source: Seq<u8>)
    ensures
        decoded_pair(source) matches Ok((_, n)) ==> 2 <= n <= source.len(),
{
    lemma_read_within(source, 0);
    if let Ok((_, n)) = uleb128_at(source, 0) {
        lemma_read_within(source, n);
    }
}

/// A run of pairs holds as many typed handlers as were asked for and
/// nothing else, and ends within the bytes, past where it starts.
pub proof fn lemma_pairs_shape(source: Seq<u8>, offset: nat, count: nat)
    requires
        offset <= source.len(),
    ensures
        decoded_pairs(source, offset, count) matches Ok((typed, end)) ==> {
            &&& typed.len() == count
            &&& forall|i: int| 0 <= i < count ==> typed[i] is Type
            &&& offset + 2 * count <= end <= source.len()
        },
    decreases count,
{
    if count > 0 {
        if let Ok((pair, size)) = decoded_at::<(), EncodedTypeAddrPair>(source, offset, ()) {
            lemma_pair_within(source.skip(offset as int));
            lemma_pairs_shape(source, offset + size, (count - 1) as nat);
        }
    }
}

/// A block whose size field is positive holds that many typed handlers and
/// no catch-all. A block whose size field is zero or negative holds as many
/// typed handlers as the field's absolute value, and then one catch-all.
pub proof fn lemma_handler_shape(source: Seq<u8>)
    ensures
        decoded_handler(source) matches Ok((handlers, n)) ==> {
            &&& sleb128_at(source, 0) matches Ok((size, _))
            &&& forall|i: int| 0 <= i < typed_count(size) ==> handlers[i] is Type
            &&& size > 0 ==> handlers.len() == typed_count(size)
            &&& size <= 0 ==> handlers.len() == typed_count(size) + 1 && handlers.last() is CatchAll
            &&& 1 <= n <= source.len()
        },
{
    lemma_read_within(source, 0);
    if let Ok((size, n)) = sleb128_at(source, 0) {
        lemma_pairs_shape(source, n, typed_count(size));
        if let Ok((typed, end)) = decoded_pairs(source, n, typed_count(size)) {
            lemma_read_within(source, end);
        }
    }
}

/// A list whose count is zero is empty, and takes the bytes of the count alone.
pub proof fn lemma_list_of_no_blocks(source: Seq<u8>)
    ensures
        uleb128_at(source, 0) matches Ok((count, n)) ==> (count == 0 ==> decoded_handler_list(
            source,
        ) == Ok::<(Seq<(usize, Seq<Handler>)>, nat), Error>((Seq::empty(), n))),
{
}

/// Where block `i` of a run of blocks ends: where the next one starts, or
/// where the run ends.
pub open spec fn block_end(blocks: Seq<(usize, Seq<Handler>)>, end: nat, i: int) -> nat {
    if i + 1 < blocks.len() {
        blocks[i + 1].0 as nat
    } else {
        end
    }
}

/// The offsets recorded with a run of blocks are the cursor positions at
/// which the blocks were decoded: the first is where the run starts, each
/// block decodes at its offset to what is recorded, each ends where the
/// next starts, and so the offsets strictly increase.
pub proof fn lemma_blocks_offsets(source: Seq<u8>, offset: nat, count: nat)
    requires
        offset <= source.len() <= usize::MAX,
    ensures
        decoded_blocks(source, offset, count) matches Ok((blocks, end)) ==> {
            &&& blocks.len() == count
            &&& offset + count <= end <= source.len()
            &&& count > 0 ==> blocks[0].0 == offset
            &&& forall|i: int|
                0 <= i < count ==> offset <= (#[trigger] blocks[i]).0 < block_end(blocks, end, i)
                    <= end
            &&& forall|i: int|
                0 <= i < count ==> decoded_handler_at(source, (#[trigger] blocks[i]).0 as nat)
                    == Ok::<(Seq<Handler>, nat), Error>(
                    (blocks[i].1, (block_end(blocks, end, i) - blocks[i].0) as nat),
                )
            &&& forall|i: int, j: int|
                0 <= i < j < count ==> (#[trigger] blocks[i]).0 < (#[trigger] blocks[j]).0
        },
    decreases count,
{
    if count > 0 {
        if let Ok((block, size)) = decoded_handler_at(source, offset) {
            lemma_handler_shape(source.skip(offset as int));
            lemma_blocks_offsets(source, offset + size, (count - 1) as nat);
            if let Ok((rest, end)) = decoded_blocks(source, offset + size, (count - 1) as nat) {
                let blocks = seq![(offset as usize, block)] + rest;
                assert forall|i: int| 0 <= i < count implies offset <= (#[trigger] blocks[i]).0
                    < block_end(blocks, end, i) <= end && decoded_handler_at(
                    source,
                    blocks[i].0 as nat,
                ) == Ok::<(Seq<Handler>, nat), Error>(
                    (blocks[i].1, (block_end(blocks, end, i) - blocks[i].0) as nat),
                ) by {
                    if i > 0 {
                        assert(blocks[i] == rest[i - 1]);
                        assert(block_end(blocks, end, i) == block_end(rest, end, i - 1));
                    } else if count > 1 {
                        assert(blocks[1] == rest[0]);
                    }
                }
                assert forall|i: int, j: int| 0 <= i < j < count implies (#[trigger] blocks[i]).0
                    < (#[trigger] blocks[j]).0 by {
                    assert(blocks[j] == rest[j - 1]);
                    if i > 0 {
                        assert(blocks[i] == rest[i - 1]);
                    }
                }
            }
        }
    }
}

/// The offsets recorded in a catch-handler list strictly increase, and each
/// is the position, in bytes from the start of the list, at which its block
/// was decoded.
pub proof fn lemma_list_offsets(source: Seq<u8>)
    requires
        source.len() <= usize::MAX,
    ensures
        decoded_handler_list(source) matches Ok((blocks, end)) ==> {
            &&& uleb128_at(source, 0) matches Ok((count, n))
            &&& blocks.len() == count
            &&& count > 0 ==> blocks[0].0 == n
            &&& forall|i: int|
                0 <= i < blocks.len() ==> decoded_handler_at(
                    source,
                    (#[trigger] blocks[i]).0 as nat,
                ) == Ok::<(Seq<Handler>, nat), Error>(
                    (blocks[i].1, (block_end(blocks, end, i) - blocks[i].0) as nat),
                )
            &&& forall|i: int, j: int|
                0 <= i < j < blocks.len() ==> (#[trigger] blocks[i]).0 < (#[trigger] blocks[j]).0
            &&& end <= source.len()
        },
{
    lemma_read_within(source, 0);
    if let Ok((count, n)) = uleb128_at(source, 0) {
        lemma_blocks_offsets(source, n, count as nat);
    }
}

/// The context under which record `k` of an array is decoded: the
/// identifier of the record before it, and `first` for the first record.
pub open spec fn context_of<T: EncodedItem>(items: Seq<T>, k: int, first: u64) -> u64 {
    if k == 0 {
        first
    } else {
        items[k - 1].id()
    }
}

/// An array of no records is empty and consumes nothing.
pub proof fn lemma_array_of_none<T: EncodedItem + TryFromCtx<u64>>(source: Seq<u8>)
    ensures
        decoded_items::<T>(source, 0, 0, 0) == Ok::<(Seq<T>, nat), Error>((Seq::empty(), 0)),
{
}

/// An array that decodes holds as many records as were asked for.
pub proof fn lemma_array_len<T: EncodedItem + TryFromCtx<u64>>(
    source: Seq<u8>,
    offset: nat,
    count: nat,
    prev: u64,
)
    ensures
        decoded_items::<T>(source, offset, count, prev) matches Ok((items, _)) ==> items.len()
            == count,
    decreases count,
{
    if count > 0 {
        if let Ok((item, size)) = decoded_at::<u64, T>(source, offset, prev) {
            lemma_array_len::<T>(source, offset + size, (count - 1) as nat, item.id());
        }
    }
}

/// Decoding `a + b` records is decoding `a` records and then, from where
/// they end and under the identifier of the last of them, `b` more.
pub proof fn lemma_array_split<T: EncodedItem + TryFromCtx<u64>>(
    source: Seq<u8>,
    offset: nat,
    a: nat,
    b: nat,
    prev: u64,
)
    ensures
        decoded_items::<T>(source, offset, a + b, prev) == match decoded_items::<T>(
            source,
            offset,
            a,
            prev,
        ) {
            Err(e) => Err(e),
            Ok((done, mid)) => after(
                done,
                decoded_items::<T>(source, mid, b, context_of(done, a as int, prev)),
            ),
        },
    decreases a,
{
    if a == 0 {
        if let Ok((items, end)) = decoded_items::<T>(source, offset, b, prev) {
            assert(Seq::<T>::empty() + items =~= items);
        }
    } else {
        if let Ok((item, size)) = decoded_at::<u64, T>(source, offset, prev) {
            lemma_array_split::<T>(source, offset + size, (a - 1) as nat, b, item.id());
            lemma_array_len::<T>(source, offset + size, (a - 1) as nat, item.id());
            if let Ok((rest, mid)) = decoded_items::<T>(
                source,
                offset + size,
                (a - 1) as nat,
                item.id(),
            ) {
                let done = seq![item] + rest;
                assert(context_of(done, a as int, prev) == context_of(
                    rest,
                    a - 1,
                    item.id(),
                )) by {
                    if a > 1 {
                        assert(done[a - 1] == rest[a - 2]);
                    }
                }
                if let Ok((more, end)) = decoded_items::<T>(
                    source,
                    mid,
                    b,
                    context_of(done, a as int, prev),
                ) {
                    assert(seq![item] + (rest + more) =~= done + more);
                }
            }
        }
    }
}

/// Record `k` of an array is what its decoder gives at the offset where the
/// `k` records before it end, under the identifier of record `k - 1` (under
/// `0` for the first); and the first `k + 1` records end as many bytes
/// later as record `k` reports. So the bytes that an array consumes are the
/// sum of what its records report.
pub proof fn lemma_array_chain<T: EncodedItem + TryFromCtx<u64>>(
    source: Seq<u8>,
    count: nat,
    k: nat,
)
    requires
        k < count,
    ensures
        decoded_items::<T>(source, 0, count, 0) matches Ok((items, _)) ==> {
            &&& items.len() == count
            &&& decoded_items::<T>(source, 0, k, 0) matches Ok((before, start))
            &&& before == items.take(k as int)
            &&& decoded_at::<u64, T>(source, start, context_of(items, k as int, 0)) matches Ok(
                (item, size),
            )
            &&& item == items[k as int]
            &&& decoded_items::<T>(source, 0, k + 1, 0) matches Ok((_, next))
            &&& next == start + size
        },
{
    if let Ok((items, end)) = decoded_items::<T>(source, 0, count, 0) {
        lemma_array_len::<T>(source, 0, count, 0);
        lemma_array_split::<T>(source, 0, k, (count - k) as nat, 0);
        lemma_array_split::<T>(source, 0, k, 1, 0);
        lemma_array_len::<T>(source, 0, k, 0);
        let (before, start) = decoded_items::<T>(source, 0, k, 0).unwrap();
        let ctx = context_of(before, k as int, 0);
        let (item, size) = decoded_at::<u64, T>(source, start, ctx).unwrap();
        let (rest, _) = decoded_items::<T>(
            source,
            start + size,
            (count - k - 1) as nat,
            item.id(),
        ).unwrap();
        assert(items == before + (seq![item] + rest));
        assert(items.take(k as int) =~= before);
        assert(items[k as int] == item);
        if k > 0 {
            assert(items[k - 1] == before[k - 1]);
        }
        assert(decoded_items::<T>(source, start + size, 0, item.id()) == Ok::<(Seq<T>, nat), Error>(
            (Seq::empty(), start + size),
        ));
    }
}

/// A type-address pair that is decoded from `source` is decoded, the same,
/// from every prefix of `source` that holds all its bytes; a shorter prefix
/// is out of data.
pub proof fn lemma_pair_cut(source: Seq<u8>, k: nat)
    requires
        k <= source.len(),
    ensures
        decoded_pair(source) matches Ok((_, n)) ==> decoded_pair(source.take(k as int)) == if k
            >= n {
            decoded_pair(source)
        } else {
            Err(Error::OutOfData)
        },
{
    lemma_read_cut(source, 0, k);
    lemma_read_within(source, 0);
    if let Ok((_, n)) = uleb128_at(source, 0) {
        lemma_read_cut(source, n, k);
    }
}

/// As `lemma_pair_cut`, for a pair that is decoded at `offset`.
pub proof fn lemma_pair_at_cut(source: Seq<u8>, offset: nat, k: nat)
    requires
        k <= source.len(),
    ensures
        decoded_at::<(), EncodedTypeAddrPair>(source, offset, ()) matches Ok((_, n))
            ==> decoded_at::<(), EncodedTypeAddrPair>(source.take(k as int), offset, ()) == if k
            >= offset + n {
            decoded_at::<(), EncodedTypeAddrPair>(source, offset, ())
        } else {
            Err(Error::OutOfData)
        },
{
    if offset < source.len() && k > offset {
        assert(source.take(k as int).skip(offset as int) =~= source.skip(offset as int).take(
            k - offset,
        ));
        lemma_pair_cut(source.skip(offset as int), (k - offset) as nat);
    }
}

/// A run of pairs that is decoded from `source` is decoded, the same, from
/// every prefix of `source` that holds all its bytes; a shorter prefix is
/// out of data.
pub proof fn lemma_pairs_cut(source: Seq<u8>, offset: nat, count: nat, k: nat)
    requires
        offset <= k <= source.len(),
    ensures
        decoded_pairs(source, offset, count) matches Ok((_, end)) ==> decoded_pairs(
            source.take(k as int),
            offset,
            count,
        ) == if k >= end {
            decoded_pairs(source, offset, count)
        } else {
            Err(Error::OutOfData)
        },
    decreases count,
{
    if count > 0 {
        lemma_pair_at_cut(source, offset, k);
        if let Ok((_, size)) = decoded_at::<(), EncodedTypeAddrPair>(source, offset, ()) {
            lemma_pair_within(source.skip(offset as int));
            lemma_pairs_shape(source, offset + size, (count - 1) as nat);
            if k >= offset + size {
                lemma_pairs_cut(source, offset + size, (count - 1) as nat, k);
            }
        }
    }
}

/// A catch-handler block that is decoded from `source` is decoded, the same,
/// from every prefix of `source` that holds all its bytes; a shorter prefix
/// is out of data.
pub proof fn lemma_handler_cut(source: Seq<u8>, k: nat)
    requires
        k <= source.len(),
    ensures
        decoded_handler(source) matches Ok((_, n)) ==> decoded_handler(source.take(k as int))
            == if k >= n {
            decoded_handler(source)
        } else {
            Err(Error::OutOfData)
        },
{
    lemma_read_cut(source, 0, k);
    lemma_read_within(source, 0);
    if let Ok((size, n)) = sleb128_at(source, 0) {
        lemma_pairs_shape(source, n, typed_count(size));
        if k >= n {
            lemma_pairs_cut(source, n, typed_count(size), k);
            if let Ok((_, end)) = decoded_pairs(source, n, typed_count(size)) {
                lemma_read_cut(source, end, k);
                lemma_read_within(source, end);
            }
        }
    }
}

/// As `lemma_handler_cut`, for a block that is decoded at `offset`.
pub proof fn lemma_handler_at_cut(source: Seq<u8>, offset: nat, k: nat)
    requires
        k <= source.len(),
    ensures
        decoded_handler_at(source, offset) matches Ok((_, n)) ==> decoded_handler_at(
            source.take(k as int),
            offset,
        ) == if k >= offset + n {
            decoded_handler_at(source, offset)
        } else {
            Err(Error::OutOfData)
        },
{
    if offset < source.len() {
        lemma_handler_shape(source.skip(offset as int));
        if k > offset {
            assert(source.take(k as int).skip(offset as int) =~= source.skip(offset as int).take(
                k - offset,
            ));
            lemma_handler_cut(source.skip(offset as int), (k - offset) as nat);
        }
    }
}

/// A run of blocks that is decoded from `source` is decoded, the same, from
/// every prefix of `source` that holds all its bytes; a shorter prefix is
/// out of data.
pub proof fn lemma_blocks_cut(source: Seq<u8>, offset: nat, count: nat, k: nat)
    requires
        offset <= k <= source.len(),
    ensures
        decoded_blocks(source, offset, count) matches Ok((_, end)) ==> decoded_blocks(
            source.take(k as int),
            offset,
            count,
        ) == if k >= end {
            decoded_blocks(source, offset, count)
        } else {
            Err(Error::OutOfData)
        },
    decreases count,
{
    if count > 0 {
        lemma_handler_at_cut(source, offset, k);
        if let Ok((_, size)) = decoded_handler_at(source, offset) {
            lemma_handler_shape(source.skip(offset as int));
            if let Ok((_, end)) = decoded_blocks(source, offset + size, (count - 1) as nat) {
                lemma_blocks_end(source, offset + size, (count - 1) as nat);
            }
            if k >= offset + size {
                lemma_blocks_cut(source, offset + size, (count - 1) as nat, k);
            }
        }
    }
}

/// A run of blocks ends at or after the offset at which it starts.
proof fn lemma_blocks_end(source: Seq<u8>, offset: nat, count: nat)
    requires
        offset <= source.len(),
    ensures
        decoded_blocks(source, offset, count) matches Ok((_, end)) ==> offset <= end
            <= source.len(),
    decreases count,
{
    if count > 0 {
        if let Ok((_, size)) = decoded_handler_at(source, offset) {
            lemma_handler_shape(source.skip(offset as int));
            lemma_blocks_end(source, offset + size, (count - 1) as nat);
        }
    }
}

/// A catch-handler list that is decoded from `source` is decoded, the same,
/// from every prefix of `source` that holds all the bytes it consumes; a
/// prefix that is cut anywhere before the last of them is out of data.
pub proof fn lemma_list_cut(source: Seq<u8>, k: nat)
    requires
        k <= source.len(),
    ensures
        decoded_handler_list(source) matches Ok((_, n)) ==> decoded_handler_list(
            source.take(k as int),
        ) == if k >= n {
            decoded_handler_list(source)
        } else {
            Err(Error::OutOfData)
        },
{
    lemma_read_cut(source, 0, k);
    lemma_read_within(source, 0);
    if let Ok((count, n)) = uleb128_at(source, 0) {
        lemma_blocks_end(source, n, count as nat);
        if k >= n {
            lemma_blocks_cut(source, n, count as nat, k);
        }
    }
}

/// Whether the decoder of `T` consumes at least one byte and reads no
/// further than it consumes: what it decodes from some bytes it decodes,
/// the same, from every prefix that holds all it consumed, and a shorter
/// prefix is out of data.
pub open spec fn cuts_cleanly<Ctx, T: TryFromCtx<Ctx>>() -> bool {
    forall|source: Seq<u8>, ctx: Ctx, k: nat|
        k <= source.len() ==> (T::decoded(source, ctx) matches Ok((_, n)) ==> 1 <= n
            <= source.len() && #[trigger] T::decoded(source.take(k as int), ctx) == if k >= n {
            T::decoded(source, ctx)
        } else {
            Err(Error::OutOfData)
        })
}

/// The decoder of type-address pairs consumes at least one byte and reads
/// no further than it consumes.
pub proof fn lemma_pair_cuts_cleanly()
    ensures
        cuts_cleanly::<(), EncodedTypeAddrPair>(),
{
    assert forall|source: Seq<u8>, ctx: (), k: nat| k <= source.len() implies (
    EncodedTypeAddrPair::decoded(source, ctx) matches Ok((_, n)) ==> 1 <= n <= source.len()
        && #[trigger] EncodedTypeAddrPair::decoded(source.take(k as int), ctx) == if k >= n {
        EncodedTypeAddrPair::decoded(source, ctx)
    } else {
        Err(Error::OutOfData)
    }) by {
        lemma_pair_cut(source, k);
        lemma_pair_within(source);
    }
}

/// Where the decoder of `T` cuts cleanly, a run of
/// records that is decoded from `source` is decoded, the same, from every
/// prefix of `source` that holds all its bytes; a shorter prefix is out of
/// data.
pub proof fn lemma_items_cut<T: EncodedItem + TryFromCtx<u64>>(
    source: Seq<u8>,
    offset: nat,
    count: nat,
    prev: u64,
    k: nat,
)
    requires
        cuts_cleanly::<u64, T>(),
        offset <= k <= source.len(),
    ensures
        decoded_items::<T>(source, offset, count, prev) matches Ok((_, end)) ==> end
            <= source.len() && decoded_items::<T>(source.take(k as int), offset, count, prev)
            == if k >= end {
            decoded_items::<T>(source, offset, count, prev)
        } else {
            Err(Error::OutOfData)
        },
    decreases count,
{
    if count > 0 {
        if let Ok((item, size)) = decoded_at::<u64, T>(source, offset, prev) {
            let whole = source.skip(offset as int);
            let part = whole.take(k - offset);
            assert(source.take(k as int).skip(offset as int) =~= part);
            assert(T::decoded(part, prev) == if k - offset >= size {
                T::decoded(whole, prev)
            } else {
                Err(Error::OutOfData)
            });
            if k >= offset + size {
                lemma_items_cut::<T>(source, offset + size, (count - 1) as nat, item.id(), k);
            } else {
                lemma_items_cut::<T>(
                    source,
                    offset + size,
                    (count - 1) as nat,
                    item.id(),
                    offset + size,
                );
            }
        }
    }
}

/// Where the decoder of `T` cuts cleanly, an array
/// that is decoded from `source` is decoded, the same, from every prefix of
/// `source` that holds all the bytes it consumes; a prefix that is cut
/// anywhere before the last of them is out of data.
pub proof fn lemma_array_cut<T: EncodedItem + TryFromCtx<u64>>(
    source: Seq<u8>,
    count: nat,
    k: nat,
)
    requires
        cuts_cleanly::<u64, T>(),
        k <= source.len(),
    ensures
        decoded_items::<T>(source, 0, count, 0) matches Ok((_, end)) ==> decoded_items::<T>(
            source.take(k as int),
            0,
            count,
            0,
        ) == if k >= end {
            decoded_items::<T>(source, 0, count, 0)
        } else {
            Err(Error::OutOfData)
        },
{
    lemma_items_cut::<T>(source, 0, count, 0, k);
}

} // verus!
