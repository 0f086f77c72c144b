use dex::{EncodedCatchHandler, EncodedTypeAddrPair, Error, Handler, TryFromCtx};

/// The shortest unsigned LEB128 form of `v`.
fn unsigned(mut v: u64) -> Vec<u8> {
    let mut out = Vec::new();
    while v >= 128 {
        out.push(0x80 | (v % 128) as u8);
        v /= 128;
    }
    out.push(v as u8);
    out
}

/// The shortest signed LEB128 form of `v`.
fn signed(mut v: i64) -> Vec<u8> {
    let mut out = Vec::new();
    while !(-64..64).contains(&v) {
        out.push(0x80 | v.rem_euclid(128) as u8);
        v = v.div_euclid(128);
    }
    out.push(v.rem_euclid(128) as u8);
    out
}

/// Reads one unsigned integer, as the address of a pair whose type is `0`.
fn read_unsigned(bytes: &[u8]) -> Result<(u64, usize), Error> {
    let mut source = vec![0x00u8];
    source.extend_from_slice(bytes);
    EncodedTypeAddrPair::try_from_ctx(&source, ()).map(|(pair, size)| (pair.addr, size - 1))
}

#[test]
fn unsigned_values_come_back() {
    let values = [
        0u64,
        1,
        127,
        128,
        130,
        16_383,
        16_384,
        0xffff_ffff,
        0x1_0000_0000,
        0x7fff_ffff_ffff_ffff,
        0x8000_0000_0000_0000,
        u64::MAX,
    ];
    for v in values {
        let mut bytes = unsigned(v);
        let len = bytes.len();
        bytes.push(0xaa);
        assert_eq!(read_unsigned(&bytes), Ok((v, len)));
    }
}

#[test]
fn unsigned_exact_bytes() {
    assert_eq!(read_unsigned(&[0x00]), Ok((0, 1)));
    assert_eq!(read_unsigned(&[0x7f]), Ok((127, 1)));
    assert_eq!(read_unsigned(&[0x80, 0x01]), Ok((128, 2)));
    assert_eq!(read_unsigned(&[0xe5, 0x8e, 0x26]), Ok((624_485, 3)));
    assert_eq!(read_unsigned(&[0x80, 0x00]), Ok((0, 2)));
}

#[test]
fn unsigned_of_ten_bytes() {
    let mut bytes = vec![0xffu8; 9];
    bytes.push(0x01);
    assert_eq!(read_unsigned(&bytes), Ok((u64::MAX, 10)));
    let mut bytes = vec![0x80u8; 9];
    bytes.push(0x00);
    assert_eq!(read_unsigned(&bytes), Ok((0, 10)));
}

#[test]
fn unsigned_wider_than_64_bits_is_malformed() {
    let mut bytes = vec![0xffu8; 9];
    bytes.push(0x02);
    assert_eq!(read_unsigned(&bytes), Err(Error::Malformed));
    let mut bytes = vec![0xffu8; 10];
    bytes.push(0x00);
    assert_eq!(read_unsigned(&bytes), Err(Error::Malformed));
    assert_eq!(read_unsigned(&[0xffu8; 10]), Err(Error::Malformed));
}

#[test]
fn unsigned_without_its_last_byte_is_out_of_data() {
    assert_eq!(read_unsigned(&[]), Err(Error::OutOfData));
    assert_eq!(read_unsigned(&[0x80]), Err(Error::OutOfData));
    assert_eq!(read_unsigned(&[0xffu8; 9]), Err(Error::OutOfData));
    for v in [128u64, 624_485, u64::MAX] {
        let bytes = unsigned(v);
        for cut in 0..bytes.len() {
            assert_eq!(read_unsigned(&bytes[..cut]), Err(Error::OutOfData));
        }
    }
}

#[test]
fn type_id_keeps_the_low_32_bits() {
    let mut bytes = unsigned(0x1_0000_0005);
    bytes.extend_from_slice(&unsigned(9));
    let (pair, size) = EncodedTypeAddrPair::try_from_ctx(&bytes, ()).unwrap();
    assert_eq!(pair, EncodedTypeAddrPair { type_id: 5, addr: 9 });
    assert_eq!(size, 6);
}

#[test]
fn pair_errors() {
    assert_eq!(EncodedTypeAddrPair::try_from_ctx(&[], ()), Err(Error::OutOfData));
    assert_eq!(EncodedTypeAddrPair::try_from_ctx(&[0x01], ()), Err(Error::OutOfData));
    assert_eq!(EncodedTypeAddrPair::try_from_ctx(&[0x01, 0x80], ()), Err(Error::OutOfData));
    let mut bytes = vec![0x01u8];
    bytes.extend_from_slice(&[0xff; 10]);
    assert_eq!(EncodedTypeAddrPair::try_from_ctx(&bytes, ()), Err(Error::Malformed));
}

/// The number of typed handlers and whether a catch-all follows them, for a
/// block of this size whose pairs are all `(1, 2)` and whose catch-all is `3`.
fn block_of(size: i64) -> Result<(usize, bool, usize), Error> {
    let mut bytes = signed(size);
    for _ in 0..size.unsigned_abs() {
        bytes.extend_from_slice(&[0x01, 0x02]);
    }
    bytes.push(0x03);
    bytes.push(0xaa);
    let (block, consumed) = EncodedCatchHandler::try_from_ctx(&bytes, ())?;
    let typed = block
        .handlers
        .iter()
        .filter(|h| **h == Handler::Type(EncodedTypeAddrPair { type_id: 1, addr: 2 }))
        .count();
    let catch_all = block.handlers.last() == Some(&Handler::CatchAll(3));
    assert_eq!(block.handlers.len(), typed + usize::from(catch_all));
    Ok((typed, catch_all, consumed))
}

#[test]
fn signed_sizes_come_back() {
    assert_eq!(block_of(0), Ok((0, true, 2)));
    assert_eq!(block_of(1), Ok((1, false, 3)));
    assert_eq!(block_of(-1), Ok((1, true, 4)));
    assert_eq!(block_of(63), Ok((63, false, 127)));
    assert_eq!(block_of(64), Ok((64, false, 130)));
    assert_eq!(block_of(-64), Ok((64, true, 130)));
    assert_eq!(block_of(-65), Ok((65, true, 133)));
    assert_eq!(block_of(200), Ok((200, false, 402)));
    assert_eq!(block_of(-8192), Ok((8192, true, 2 + 16_384 + 1)));
    assert_eq!(block_of(-8193), Ok((8193, true, 3 + 16_386 + 1)));
}

#[test]
fn signed_exact_bytes() {
    assert_eq!(signed(-1), vec![0x7f]);
    assert_eq!(signed(-128), vec![0x80, 0x7f]);
    assert_eq!(signed(64), vec![0xc0, 0x00]);
    // 0x80 0x7f is -128: out of data after the size, as no pair follows.
    assert_eq!(EncodedCatchHandler::try_from_ctx(&[0x80, 0x7f], ()).err(), Some(Error::OutOfData));
    // 0x40 is -64.
    assert_eq!(EncodedCatchHandler::try_from_ctx(&[0x40], ()).err(), Some(Error::OutOfData));
    // 0x3f is 63 and 0x41 is -63, neither the other way round.
    let mut plus = vec![0x3fu8];
    plus.extend_from_slice(&[0x01; 126]);
    let (block, size) = EncodedCatchHandler::try_from_ctx(&plus, ()).unwrap();
    assert_eq!((block.handlers.len(), size), (63, 127));
    let mut minus = vec![0x41u8];
    minus.extend_from_slice(&[0x01; 127]);
    let (block, size) = EncodedCatchHandler::try_from_ctx(&minus, ()).unwrap();
    assert_eq!((block.handlers.len(), size), (64, 128));
}

#[test]
fn signed_of_ten_bytes() {
    // The least 64-bit number: more pairs than any slice holds.
    let mut bytes = vec![0x80u8; 9];
    bytes.push(0x7f);
    assert_eq!(bytes, signed(i64::MIN));
    bytes.extend_from_slice(&[0x01, 0x02]);
    assert_eq!(EncodedCatchHandler::try_from_ctx(&bytes, ()).err(), Some(Error::OutOfData));
    // Zero in ten bytes.
    let mut bytes = vec![0x80u8; 9];
    bytes.extend_from_slice(&[0x00, 0x05]);
    let (block, size) = EncodedCatchHandler::try_from_ctx(&bytes, ()).unwrap();
    assert_eq!(block.handlers, vec![Handler::CatchAll(5)]);
    assert_eq!(size, 11);
    // Minus one in ten bytes.
    let mut bytes = vec![0xffu8; 9];
    bytes.extend_from_slice(&[0x7f, 0x01, 0x02, 0x03]);
    let (block, size) = EncodedCatchHandler::try_from_ctx(&bytes, ()).unwrap();
    assert_eq!(
        block.handlers,
        vec![Handler::Type(EncodedTypeAddrPair { type_id: 1, addr: 2 }), Handler::CatchAll(3)]
    );
    assert_eq!(size, 13);
}

#[test]
fn signed_wider_than_64_bits_is_malformed() {
    let mut bytes = vec![0x80u8; 9];
    bytes.push(0x01);
    assert_eq!(EncodedCatchHandler::try_from_ctx(&bytes, ()).err(), Some(Error::Malformed));
    let mut bytes = vec![0xffu8; 9];
    bytes.push(0x3f);
    assert_eq!(EncodedCatchHandler::try_from_ctx(&bytes, ()).err(), Some(Error::Malformed));
    assert_eq!(EncodedCatchHandler::try_from_ctx(&[0x80u8; 10], ()).err(), Some(Error::Malformed));
}

#[test]
fn signed_without_its_last_byte_is_out_of_data() {
    assert_eq!(EncodedCatchHandler::try_from_ctx(&[], ()).err(), Some(Error::OutOfData));
    assert_eq!(EncodedCatchHandler::try_from_ctx(&[0xff], ()).err(), Some(Error::OutOfData));
    assert_eq!(EncodedCatchHandler::try_from_ctx(&[0x80u8; 9], ()).err(), Some(Error::OutOfData));
}

#[test]
fn malformed_catch_all_address() {
    let mut bytes = vec![0x00u8];
    bytes.extend_from_slice(&[0xff; 10]);
    assert_eq!(EncodedCatchHandler::try_from_ctx(&bytes, ()).err(), Some(Error::Malformed));
}
