//! The LEB128 variable-length integers, unsigned and signed, as a value
//! of the bytes they are read from.

use vstd::prelude::*;
use crate::error::Error;

verus! {

/// `128` to the power `n`.
pub open spec fn pow128(n: nat) -> nat
    decreases n,
{
    if n == 0 {
        1
    } else {
        128 * pow128((n - 1) as nat)
    }
}

/// The length of the group of bytes at the front of `s`: every byte of a
/// group but its last has the high bit set. `None` where `s` ends before
/// the group does.
pub open spec fn group_len(s: Seq<u8>) -> Option<nat>
    decreases s.len(),
{
    if s.len() == 0 {
        None
    } else if s[0] < 128 {
        Some(1)
    } else {
        match group_len(s.skip(1)) {
            Some(n) => Some(n + 1),
            None => None,
        }
    }
}

/// The number that the low seven bits of the first `n` bytes of `s` spell,
/// least significant byte first.
pub open spec fn group_value(s: Seq<u8>, n: nat) -> nat
    decreases n,
{
    if n == 0 {
        0
    } else {
        (s[0] % 128) as nat + 128 * group_value(s.skip(1), (n - 1) as nat)
    }
}

/// An `n`-byte group's number read as a two's complement number of `7 * n` bits.
pub open spec fn sign_extended(v: nat, n: nat) -> int {
    if 2 * v >= pow128(n) {
        v - pow128(n)
    } else {
        v as int
    }
}

/// What reading an unsigned integer at the front of `s` gives: the value
/// and the number of bytes taken. The read is out of data where `s` ends
/// inside the first ten bytes of the group, and malformed where a tenth
/// byte is anything but `0` or `1`.
pub open spec fn uleb128(s: Seq<u8>) -> Result<(u64, nat), Error> {
    match group_len(s) {
        Some(n) => if n < 10 || (n == 10 && s[9] <= 1) {
            Ok((group_value(s, n) as u64, n))
        } else {
            Err(Error::Malformed)
        },
        None => if s.len() >= 10 {
            Err(Error::Malformed)
        } else {
            Err(Error::OutOfData)
        },
    }
}

/// What reading a signed integer at the front of `s` gives. As `uleb128`,
/// but the group's highest bit is the sign, and a tenth byte is `0` or `0x7f`.
pub open spec fn sleb128(s: Seq<u8>) -> Result<(i64, nat), Error> {
    match group_len(s) {
        Some(n) => if n < 10 || (n == 10 && (s[9] == 0 || s[9] == 0x7f)) {
            Ok((sign_extended(group_value(s, n), n) as i64, n))
        } else {
            Err(Error::Malformed)
        },
        None => if s.len() >= 10 {
            Err(Error::Malformed)
        } else {
            Err(Error::OutOfData)
        },
    }
}

/// `uleb128` of what `s` holds from `offset` on; out of data where that is nothing.
pub open spec fn uleb128_at(s: Seq<u8>, offset: nat) -> Result<(u64, nat), Error> {
    if offset >= s.len() {
        Err(Error::OutOfData)
    } else {
        uleb128(s.skip(offset as int))
    }
}

/// `sleb128` of what `s` holds from `offset` on; out of data where that is nothing.
pub open spec fn sleb128_at(s: Seq<u8>, offset: nat) -> Result<(i64, nat), Error> {
    if offset >= s.len() {
        Err(Error::OutOfData)
    } else {
        sleb128(s.skip(offset as int))
    }
}

/// The bytes that spell `v` as an unsigned integer in the fewest bytes.
pub open spec fn uleb128_encoding(v: nat) -> Seq<u8>
    decreases v,
{
    if v < 128 {
        seq![v as u8]
    } else {
        seq![(128 + v % 128) as u8] + uleb128_encoding(v / 128)
    }
}

/// The bytes that spell `v` as a signed integer in the fewest bytes.
pub open spec fn sleb128_encoding(v: int) -> Seq<u8>
    decreases (if v < 0 { -v } else { v }),
{
    if -64 <= v < 64 {
        seq![(v % 128) as u8]
    } else {
        seq![(128 + v % 128) as u8] + sleb128_encoding(v / 128)
    }
}

/// A group has at least one byte and lies within the bytes it is found in.
pub proof fn lemma_group_len_bounds(s: Seq<u8>)
    ensures
        group_len(s) matches Some(n) ==> 1 <= n <= s.len(),
    decreases s.len(),
{
    if s.len() > 0 && s[0] >= 128 {
        lemma_group_len_bounds(s.skip(1));
    }
}

/// An integer that was read took at least one byte, and only bytes that are there.
pub proof fn lemma_read_within(s: Seq<u8>, offset: nat)
    ensures
        uleb128_at(s, offset) matches Ok((_, n)) ==> 1 <= n && offset + n <= s.len(),
        sleb128_at(s, offset) matches Ok((_, n)) ==> 1 <= n && offset + n <= s.len(),
{
    if offset < s.len() {
        lemma_group_len_bounds(s.skip(offset as int));
    }
}

/// The powers of `128` grow.
proof fn lemma_pow128_grows(a: nat, b: nat)
    requires
        a <= b,
    ensures
        1 <= pow128(a) <= pow128(b),
    decreases b,
{
    if a < b {
        lemma_pow128_grows(a, (b - 1) as nat);
    } else if a > 0 {
        lemma_pow128_grows((a - 1) as nat, (a - 1) as nat);
    }
}

/// The number that `n` bytes spell lies between the multiples of `128^(n-1)`
/// that their last byte sets.
proof fn lemma_group_value_bounds(s: Seq<u8>, n: nat)
    requires
        1 <= n <= s.len(),
    ensures
        (s[n - 1] % 128) * pow128((n - 1) as nat) <= group_value(s, n) < (s[n - 1] % 128 + 1)
            * pow128((n - 1) as nat),
    decreases n,
{
    let last = (s[n - 1] % 128) as int;
    if n == 1 {
        assert(pow128(0) == 1);
        assert(group_value(s.skip(1), 0) == 0);
        assert(last * 1 == last && (last + 1) * 1 == last + 1) by (nonlinear_arith);
    } else {
        let tail = s.skip(1);
        lemma_group_value_bounds(tail, (n - 1) as nat);
        assert(tail[n - 2] == s[n - 1]);
        let p = pow128((n - 2) as nat) as int;
        assert(pow128((n - 1) as nat) == 128 * p);
        assert(last * (128 * p) == 128 * (last * p) && (last + 1) * (128 * p) == 128 * ((last + 1)
            * p)) by (nonlinear_arith);
    }
}

/// The value of an integer that is read is the number that its bytes spell:
/// it fits in 64 bits, so that no bit of it is cut off.
pub proof fn lemma_read_fits(s: Seq<u8>)
    ensures
        uleb128(s) matches Ok((v, n)) ==> v == group_value(s, n),
        sleb128(s) matches Ok((v, n)) ==> v == sign_extended(group_value(s, n), n),
{
    if let Some(n) = group_len(s) {
        lemma_group_len_bounds(s);
        if n <= 10 {
            lemma_group_value_bounds(s, n);
            assert(pow128(9) == 0x8000_0000_0000_0000 && pow128(10)
                == 0x40_0000_0000_0000_0000) by {
                reveal_with_fuel(pow128, 11);
            }
            let last = (s[n - 1] % 128) as int;
            let p = pow128((n - 1) as nat) as int;
            lemma_pow128_grows(0, (n - 1) as nat);
            assert(pow128(n) == 128 * p);
            assert((last + 1) * p <= 128 * p && (last <= 63 ==> 2 * ((last + 1) * p) <= 128 * p) && (
            last >= 64 ==> 2 * (last * p) >= 128 * p)) by (nonlinear_arith)
                requires
                    0 <= last < 128,
                    p >= 1,
            ;
            if n < 10 {
                lemma_pow128_grows(n, 9);
            } else {
                assert(last * p == if last == 0 {
                    0
                } else if last == 1 {
                    p
                } else {
                    last * p
                }) by (nonlinear_arith);
                assert(last <= 1 ==> (last + 1) * p <= 2 * p) by (nonlinear_arith)
                    requires
                        0 <= last,
                        p >= 1,
                ;
                assert(last == 0 ==> (last + 1) * p == p) by (nonlinear_arith);
                assert(last == 0x7f ==> last * p == 127 * p && (last + 1) * p == 128 * p)
                    by (nonlinear_arith);
            }
        }
    }
}

/// An unsigned encoding is one group, and the group spells the number.
proof fn lemma_unsigned_group(v: nat, rest: Seq<u8>)
    ensures
        uleb128_encoding(v).len() >= 1,
        group_len(uleb128_encoding(v) + rest) == Some(uleb128_encoding(v).len()),
        group_value(uleb128_encoding(v) + rest, uleb128_encoding(v).len()) == v,
    decreases v,
{
    let s = uleb128_encoding(v) + rest;
    if v < 128 {
        assert(s[0] == v as u8);
        assert(group_value(s.skip(1), 0) == 0);
    } else {
        lemma_unsigned_group(v / 128, rest);
        assert(s.skip(1) =~= uleb128_encoding(v / 128) + rest);
        assert(s[0] == (128 + v % 128) as u8);
    }
}

/// A number below `2 * 128^k` takes at most `k + 1` bytes, and where it
/// takes them all, the last is `0` or `1`.
proof fn lemma_unsigned_length(v: nat, k: nat)
    requires
        v < 2 * pow128(k),
    ensures
        uleb128_encoding(v).len() <= k + 1,
        uleb128_encoding(v).len() == k + 1 ==> uleb128_encoding(v).last() <= 1,
    decreases k,
{
    if v >= 128 {
        if k == 0 {
            assert(pow128(0) == 1);
        } else {
            lemma_unsigned_length(v / 128, (k - 1) as nat);
            let tail = uleb128_encoding(v / 128);
            assert((seq![(128 + v % 128) as u8] + tail).last() == tail.last());
        }
    }
}

/// Reading the bytes that encode `v` gives `v` back, and takes exactly
/// those bytes, whatever follows them.
pub proof fn lemma_uleb128_round_trip(v: u64, rest: Seq<u8>)
    ensures
        uleb128(uleb128_encoding(v as nat) + rest) == Ok::<(u64, nat), Error>(
            (v, uleb128_encoding(v as nat).len()),
        ),
{
    let e = uleb128_encoding(v as nat);
    lemma_unsigned_group(v as nat, rest);
    assert(pow128(9) == 0x8000_0000_0000_0000) by {
        reveal_with_fuel(pow128, 10);
    }
    lemma_unsigned_length(v as nat, 9);
    if e.len() == 10 {
        assert((e + rest)[9] == e.last());
    }
}

/// A signed encoding is one group, and the group spells the number in two's
/// complement over the bits of the group.
proof fn lemma_signed_group(v: int, rest: Seq<u8>)
    ensures
        sleb128_encoding(v).len() >= 1,
        group_len(sleb128_encoding(v) + rest) == Some(sleb128_encoding(v).len()),
        sign_extended(
            group_value(sleb128_encoding(v) + rest, sleb128_encoding(v).len()),
            sleb128_encoding(v).len(),
        ) == v,
        -(pow128(sleb128_encoding(v).len()) as int) <= 2 * v < pow128(sleb128_encoding(v).len()),
        group_value(sleb128_encoding(v) + rest, sleb128_encoding(v).len()) == if v < 0 {
            v + pow128(sleb128_encoding(v).len())
        } else {
            v
        },
    decreases (if v < 0 { -v } else { v }),
{
    let e = sleb128_encoding(v);
    let s = e + rest;
    if -64 <= v < 64 {
        assert(s[0] == (v % 128) as u8);
        assert(group_value(s.skip(1), 0) == 0);
        assert(pow128(1) == 128) by {
            reveal_with_fuel(pow128, 2);
        }
    } else {
        let tail = sleb128_encoding(v / 128);
        lemma_signed_group(v / 128, rest);
        assert(s.skip(1) =~= tail + rest);
        assert(s[0] == (128 + v % 128) as u8);
        assert(e.len() == tail.len() + 1);
        assert(pow128(e.len()) == 128 * pow128(tail.len()));
    }
}

/// A number from `-128^k` up to `128^k` takes at most `k + 1` bytes, and
/// where it takes them all, the last is `0` or `0x7f`.
proof fn lemma_signed_length(v: int, k: nat)
    requires
        -(pow128(k) as int) <= v < pow128(k),
    ensures
        sleb128_encoding(v).len() <= k + 1,
        sleb128_encoding(v).len() == k + 1 ==> sleb128_encoding(v).last() == 0
            || sleb128_encoding(v).last() == 0x7f,
    decreases k,
{
    if -64 <= v < 64 {
        if k == 0 {
            assert(pow128(0) == 1);
        }
    } else {
        if k == 0 {
            assert(pow128(0) == 1);
        } else {
            lemma_signed_length(v / 128, (k - 1) as nat);
            let tail = sleb128_encoding(v / 128);
            assert((seq![(128 + v % 128) as u8] + tail).last() == tail.last());
        }
    }
}

/// Reading the bytes that encode a signed `v` gives `v` back, negative
/// numbers too, and takes exactly those bytes, whatever follows them.
pub proof fn lemma_sleb128_round_trip(v: i64, rest: Seq<u8>)
    ensures
        sleb128(sleb128_encoding(v as int) + rest) == Ok::<(i64, nat), Error>(
            (v, sleb128_encoding(v as int).len()),
        ),
{
    let e = sleb128_encoding(v as int);
    lemma_signed_group(v as int, rest);
    assert(pow128(9) == 0x8000_0000_0000_0000) by {
        reveal_with_fuel(pow128, 10);
    }
    lemma_signed_length(v as int, 9);
    if e.len() == 10 {
        assert((e + rest)[9] == e.last());
    }
}

/// A group is found again in every prefix that holds all of it, and in no
/// shorter one.
proof fn lemma_group_len_cut(s: Seq<u8>, k: nat)
    requires
        k <= s.len(),
    ensures
        group_len(s) matches Some(n) ==> group_len(s.take(k as int)) == if k >= n {
            Some(n)
        } else {
            None::<nat>
        },
    decreases s.len(),
{
    if s.len() > 0 && k > 0 && s[0] >= 128 {
        lemma_group_len_cut(s.skip(1), (k - 1) as nat);
        assert(s.take(k as int).skip(1) =~= s.skip(1).take(k - 1));
    }
}

/// The number that `n` bytes spell is the same in every prefix that holds them.
proof fn lemma_group_value_cut(s: Seq<u8>, n: nat, k: nat)
    requires
        n <= k <= s.len(),
    ensures
        group_value(s.take(k as int), n) == group_value(s, n),
    decreases n,
{
    if n > 0 {
        lemma_group_value_cut(s.skip(1), (n - 1) as nat, (k - 1) as nat);
        assert(s.take(k as int).skip(1) =~= s.skip(1).take(k - 1));
    }
}

/// An integer that is read from `s` is read, the same, from every prefix of
/// `s` that holds all its bytes; a shorter prefix is out of data.
pub proof fn lemma_read_cut(s: Seq<u8>, offset: nat, k: nat)
    requires
        k <= s.len(),
    ensures
        uleb128_at(s, offset) matches Ok((_, n)) ==> uleb128_at(s.take(k as int), offset)
            == if k >= offset + n {
            uleb128_at(s, offset)
        } else {
            Err(Error::OutOfData)
        },
        sleb128_at(s, offset) matches Ok((_, n)) ==> sleb128_at(s.take(k as int), offset)
            == if k >= offset + n {
            sleb128_at(s, offset)
        } else {
            Err(Error::OutOfData)
        },
{
    if offset < s.len() {
        let whole = s.skip(offset as int);
        lemma_group_len_bounds(whole);
        if k > offset {
            let part = s.take(k as int).skip(offset as int);
            assert(part =~= whole.take(k - offset));
            lemma_group_len_cut(whole, (k - offset) as nat);
            if let Some(n) = group_len(whole) {
                if k >= offset + n {
                    lemma_group_value_cut(whole, n, (k - offset) as nat);
                }
            }
        }
    }
}

/// Calls `scroll::Uleb128::read`. Trusted: that it returns the unsigned
/// LEB128 value at `offset` and moves `offset` past it, and that it fails,
/// leaving `offset` alone, with `BadInput` on a tenth byte other than `0`
/// or `1` and with another error where the bytes run out first.
#[verifier::external_body]
pub(crate) fn read_uleb128(source: &[u8], offset: &mut usize) -> (r: Result<u64, Error>)
    ensures
        match uleb128_at(source@, *old(offset) as nat) {
            Ok((v, n)) => r == Ok::<u64, Error>(v) && *final(offset) == *old(offset) + n,
            Err(e) => r == Err::<u64, Error>(e) && *final(offset) == *old(offset),
        },
{
    match scroll::Uleb128::read(source, offset) {
        Ok(v) => Ok(v),
        Err(scroll::Error::BadInput { .. }) => Err(Error::Malformed),
        Err(scroll::Error::TooBig { .. }) => Err(Error::OutOfData),
        Err(scroll::Error::BadOffset(_)) => Err(Error::OutOfData),
        Err(scroll::Error::Custom(_)) => Err(Error::Malformed),
        Err(scroll::Error::IO(_)) => Err(Error::OutOfData),
    }
}

/// Calls `scroll::Sleb128::read`. Trusted: that it returns the signed
/// LEB128 value at `offset` and moves `offset` past it, and that it fails,
/// leaving `offset` alone, with `BadInput` on a tenth byte other than `0`
/// or `0x7f` and with another error where the bytes run out first.
#[verifier::external_body]
pub(crate) fn read_sleb128(source: &[u8], offset: &mut usize) -> (r: Result<i64, Error>)
    ensures
        match sleb128_at(source@, *old(offset) as nat) {
            Ok((v, n)) => r == Ok::<i64, Error>(v) && *final(offset) == *old(offset) + n,
            Err(e) => r == Err::<i64, Error>(e) && *final(offset) == *old(offset),
        },
{
    match scroll::Sleb128::read(source, offset) {
        Ok(v) => Ok(v),
        Err(scroll::Error::BadInput { .. }) => Err(Error::Malformed),
        Err(scroll::Error::TooBig { .. }) => Err(Error::OutOfData),
        Err(scroll::Error::BadOffset(_)) => Err(Error::OutOfData),
        Err(scroll::Error::Custom(_)) => Err(Error::Malformed),
        Err(scroll::Error::IO(_)) => Err(Error::OutOfData),
    }
}

} // verus!
