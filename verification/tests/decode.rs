use dex::ctx::{gread_with, TryFromCtx};
use dex::encoded_item::{
    EncodedCatchHandler, EncodedCatchHandlerList, EncodedItem, EncodedItemArray,
    EncodedItemArrayCtx, EncodedTypeAddrPair, Handler,
};
use dex::Error;

/// A one-byte record: its identifier is the byte added to the identifier of
/// the record before it.
#[derive(Debug, PartialEq)]
struct Delta(u64);

impl EncodedItem for Delta {
    fn get_id(&self) -> u64 {
        self.0
    }
}

impl TryFromCtx<u64> for Delta {
    fn try_from_ctx(source: &[u8], prev: u64) -> Result<(Self, usize), Error> {
        match source.first() {
            Some(b) => Ok((Delta(prev + u64::from(*b)), 1)),
            None => Err(Error::OutOfData),
        }
    }
}

/// Stands for the container that an array context refers to.
struct Container;

fn typed(type_id: u32, addr: u64) -> Handler {
    Handler::Type(EncodedTypeAddrPair { type_id, addr })
}

#[test]
fn gread_with_moves_the_cursor() {
    let bytes = [0x02u8, 0x03, 0x00];
    let mut offset = 1usize;
    let item: Delta = gread_with(&bytes, &mut offset, 10).unwrap();
    assert_eq!(item, Delta(13));
    assert_eq!(offset, 2);
}

#[test]
fn gread_with_at_the_end_is_out_of_data() {
    let bytes = [0x02u8];
    let mut offset = 1usize;
    let r: Result<Delta, Error> = gread_with(&bytes, &mut offset, 0);
    assert_eq!(r, Err(Error::OutOfData));
    assert_eq!(offset, 1);
}

#[test]
fn pair_reads_two_unsigned_integers() {
    let bytes = [0x82u8, 0x01, 0x7f, 0xff];
    let (pair, size) = EncodedTypeAddrPair::try_from_ctx(&bytes, ()).unwrap();
    assert_eq!(pair, EncodedTypeAddrPair { type_id: 130, addr: 127 });
    assert_eq!(size, 3);
}

#[test]
fn array_of_two_deltas() {
    let bytes = [0x02u8, 0x03, 0x00];
    let count = usize::from(bytes[0]);
    let ctx = EncodedItemArrayCtx::new(&Container, count);
    let (array, size) = EncodedItemArray::<Delta>::try_from_ctx(&bytes[1..], ctx).unwrap();
    let ids: Vec<u64> = array.into_iter().map(|d| d.get_id()).collect();
    assert_eq!(ids, vec![3, 3]);
    assert_eq!(size, 2);
}

#[test]
fn array_of_none_consumes_nothing() {
    let bytes = [0x02u8, 0x03, 0x00];
    let ctx = EncodedItemArrayCtx::new(&Container, 0);
    let (array, size) = EncodedItemArray::<Delta>::try_from_ctx(&bytes, ctx).unwrap();
    assert_eq!(array.into_iter().count(), 0);
    assert_eq!(size, 0);
    let (array, size) = EncodedItemArray::<Delta>::try_from_ctx(&[], ctx).unwrap();
    assert_eq!(array.into_iter().count(), 0);
    assert_eq!(size, 0);
}

#[test]
fn array_chains_each_identifier_into_the_next() {
    let bytes = [1u8, 2, 3, 4, 9];
    let ctx = EncodedItemArrayCtx::new(&Container, 4);
    let (array, size) = EncodedItemArray::<Delta>::try_from_ctx(&bytes, ctx).unwrap();
    let items: Vec<Delta> = array.into_iter().collect();
    assert_eq!(items, vec![Delta(1), Delta(3), Delta(6), Delta(10)]);
    assert_eq!(size, 4);
}

#[test]
fn array_longer_than_the_bytes_is_out_of_data() {
    let bytes = [1u8, 2];
    let ctx = EncodedItemArrayCtx::new(&Container, 3);
    let r = EncodedItemArray::<Delta>::try_from_ctx(&bytes, ctx);
    assert_eq!(r.err(), Some(Error::OutOfData));
    let ctx = EncodedItemArrayCtx::new(&Container, usize::MAX);
    let r = EncodedItemArray::<Delta>::try_from_ctx(&bytes, ctx);
    assert_eq!(r.err(), Some(Error::OutOfData));
}

#[test]
fn array_context_is_copied() {
    let ctx = EncodedItemArrayCtx::new(&Container, 1);
    let copy = ctx.clone();
    let (a, n) = EncodedItemArray::<Delta>::try_from_ctx(&[7], ctx).unwrap();
    let (b, m) = EncodedItemArray::<Delta>::try_from_ctx(&[7], copy).unwrap();
    assert_eq!(a.into_iter().collect::<Vec<_>>(), b.into_iter().collect::<Vec<_>>());
    assert_eq!(n, m);
}

#[test]
fn handler_with_size_plus_two() {
    let bytes = [0x02u8, 0x01, 0x10, 0x02, 0x20, 0x33];
    let (block, size) = EncodedCatchHandler::try_from_ctx(&bytes, ()).unwrap();
    assert_eq!(block.handlers, vec![typed(1, 0x10), typed(2, 0x20)]);
    assert_eq!(size, 5);
}

#[test]
fn handler_with_size_minus_two() {
    let bytes = [0x7eu8, 0x01, 0x10, 0x02, 0x20, 0x33];
    let (block, size) = EncodedCatchHandler::try_from_ctx(&bytes, ()).unwrap();
    assert_eq!(block.handlers, vec![typed(1, 0x10), typed(2, 0x20), Handler::CatchAll(0x33)]);
    assert_eq!(size, 6);
}

#[test]
fn handler_with_size_zero() {
    let bytes = [0x00u8, 0x33, 0x44];
    let (block, size) = EncodedCatchHandler::try_from_ctx(&bytes, ()).unwrap();
    assert_eq!(block.handlers, vec![Handler::CatchAll(0x33)]);
    assert_eq!(size, 2);
}

#[test]
fn handler_with_size_minus_one_is_sign_extended() {
    let bytes = [0x7fu8, 0x05, 0x06, 0x07];
    let (block, size) = EncodedCatchHandler::try_from_ctx(&bytes, ()).unwrap();
    assert_eq!(block.handlers, vec![typed(5, 6), Handler::CatchAll(7)]);
    assert_eq!(size, 4);
}

#[test]
fn handler_size_of_two_bytes() {
    // 0xff 0x7f is -1 in two bytes, 0x81 0x00 is 1 in two bytes.
    let bytes = [0xffu8, 0x7f, 0x05, 0x06, 0x07];
    let (block, size) = EncodedCatchHandler::try_from_ctx(&bytes, ()).unwrap();
    assert_eq!(block.handlers, vec![typed(5, 6), Handler::CatchAll(7)]);
    assert_eq!(size, 5);
    let bytes = [0x81u8, 0x00, 0x05, 0x06, 0x07];
    let (block, size) = EncodedCatchHandler::try_from_ctx(&bytes, ()).unwrap();
    assert_eq!(block.handlers, vec![typed(5, 6)]);
    assert_eq!(size, 4);
}

#[test]
fn handler_list_of_no_blocks() {
    let bytes = [0x00u8, 0x02, 0x01];
    let (list, size) = EncodedCatchHandlerList::try_from_ctx(&bytes, ()).unwrap();
    assert_eq!(list.iter().count(), 0);
    assert_eq!(size, 1);
}

#[test]
fn handler_list_records_byte_offsets() {
    let bytes = [0x02u8, 0x02, 0x01, 0x10, 0x02, 0x20, 0x7f, 0x03, 0x30, 0x40, 0xaa];
    let (list, size) = EncodedCatchHandlerList::try_from_ctx(&bytes, ()).unwrap();
    let entries: Vec<(usize, Vec<Handler>)> =
        list.iter().map(|(off, block)| (*off, block.handlers.clone())).collect();
    assert_eq!(
        entries,
        vec![
            (1, vec![typed(1, 0x10), typed(2, 0x20)]),
            (6, vec![typed(3, 0x30), Handler::CatchAll(0x40)]),
        ]
    );
    assert_eq!(size, 10);
}

#[test]
fn truncated_handler_list_is_out_of_data() {
    let bytes = [0x02u8, 0x02, 0x01, 0x10, 0x02, 0x20, 0x7f, 0x03, 0x30, 0x40];
    assert!(EncodedCatchHandlerList::try_from_ctx(&bytes, ()).is_ok());
    for cut in 0..bytes.len() {
        let r = EncodedCatchHandlerList::try_from_ctx(&bytes[..cut], ());
        assert_eq!(r.err(), Some(Error::OutOfData));
    }
}

#[test]
fn truncated_handler_is_out_of_data() {
    let bytes = [0x7eu8, 0x81, 0x01, 0x10, 0x02, 0xa0, 0x01, 0x33];
    assert!(EncodedCatchHandler::try_from_ctx(&bytes, ()).is_ok());
    for cut in 0..bytes.len() {
        let r = EncodedCatchHandler::try_from_ctx(&bytes[..cut], ());
        assert_eq!(r.err(), Some(Error::OutOfData));
    }
}

#[test]
fn test_debug() {
    let bytes = [0x01u8, 0x7f, 0x03, 0x30, 0x40];
    let (list, _) = EncodedCatchHandlerList::try_from_ctx(&bytes, ()).unwrap();
    let shown = format!("{:?}", list);
    assert_eq!(
        shown,
        "EncodedCatchHandlerList { inner: [(1, EncodedCatchHandler { handlers: \
         [Type(EncodedTypeAddrPair { type_id: 3, addr: 48 }), CatchAll(64)] })] }"
    );
}
