//! Numbers and byte strings on the wire: little-endian encodings, and readers
//! that say what went wrong.

use crate::stream::{ByteSource, ReadError};
use byteorder::{ByteOrder, LE};
use vstd::prelude::*;

verus! {

// ---------------------------------------------------------------------------
// Faults
// ---------------------------------------------------------------------------

/// What can be wrong with a message.
#[derive(Debug, Clone, Copy, PartialEq, Eq, Structural)]
pub enum Fault {
    /// The bytes end within a message.
    Eof,
    /// A path has more bytes than its length field can hold.
    PathTooLong,
    /// A request announces more block sums than are accepted.
    TooManyBlocks,
    /// Something else stands where a block sum should be.
    NotSumBlock,
    /// Something else stands where the block sums should end.
    NotSumEnd,
    /// No token has this tag.
    UnknownToken(u8),
    /// A token announces more data than is accepted.
    TokenTooLong,
    /// Something else stands where the digest of a file should be.
    NotFileHash,
    /// Something with this tag stands where a file list should start.
    NotListStart(u8),
    /// Something with this tag stands within a file list.
    NotListEntry(u8),
}

/// Why a message could not be read or written.
#[derive(Debug)]
pub enum WireError {
    /// The message is wrong.
    Fault(Fault),
    /// The operating system failed.
    Io(std::io::Error),
}

/// A reader gave what the bytes say: the value, with `rest` left to read, or
/// the fault. Only an unreliable source may have failed in another way.
pub open spec fn read_as<T: View>(
    got: Result<T, WireError>,
    want: Result<(T::V, Seq<u8>), Fault>,
    rest: Seq<u8>,
    reliable: bool,
) -> bool {
    match got {
        Ok(value) => want == Ok::<(T::V, Seq<u8>), Fault>((value@, rest)),
        Err(WireError::Fault(fault)) => want == Err::<(T::V, Seq<u8>), Fault>(fault),
        Err(WireError::Io(_)) => !reliable,
    }
}

// ---------------------------------------------------------------------------
// Little-endian numbers
// ---------------------------------------------------------------------------

/// The lowest `w` bytes of a number, the lowest first.
pub open spec fn le_bytes(n: nat, w: nat) -> Seq<u8>
    decreases w,
{
    if w == 0 {
        Seq::empty()
    } else {
        seq![(n % 256) as u8] + le_bytes(n / 256, (w - 1) as nat)
    }
}

/// The number that the bytes stand for, the lowest first.
pub open spec fn le_value(s: Seq<u8>) -> nat
    decreases s.len(),
{
    if s.len() == 0 {
        0
    } else {
        s[0] as nat + 256 * le_value(s.drop_first())
    }
}

/// How many numbers fit in `w` bytes.
pub open spec fn byte_range(w: nat) -> nat
    decreases w,
{
    if w == 0 {
        1
    } else {
        256 * byte_range((w - 1) as nat)
    }
}

/// A signed number of 64 bits as the unsigned number with the same bits.
pub open spec fn twos(n: i64) -> nat {
    if n >= 0 {
        n as nat
    } else {
        (n + 0x1_0000_0000_0000_0000) as nat
    }
}

/// The signed number with the bits of an unsigned number of 64 bits.
pub open spec fn from_twos(n: nat) -> i64 {
    if n < 0x8000_0000_0000_0000 {
        n as i64
    } else {
        (n - 0x1_0000_0000_0000_0000) as i64
    }
}

/// The bytes of a number stand for it.
pub proof fn law_le_round_trip(n: nat, w: nat)
    requires
        n < byte_range(w),
    ensures
        le_bytes(n, w).len() == w,
        le_value(le_bytes(n, w)) == n,
    decreases w,
{
    if w > 0 {
        let rest = le_bytes(n / 256, (w - 1) as nat);
        law_le_round_trip(n / 256, (w - 1) as nat);
        assert(le_bytes(n, w).drop_first() =~= rest);
    }
}

/// How many numbers the fields of the protocol can hold.
pub proof fn lemma_field_ranges()
    ensures
        byte_range(2) == 0x1_0000,
        byte_range(4) == 0x1_0000_0000,
        byte_range(8) == 0x1_0000_0000_0000_0000,
{
    reveal_with_fuel(byte_range, 9);
}

/// Calls `LE::write_u16` of byteorder on two bytes. Claimed: they become the
/// bytes of the number, the lowest first.
#[verifier::external_body]
pub(crate) fn put_u16(n: u16) -> (bytes: Vec<u8>)
    ensures
        bytes@ == le_bytes(n as nat, 2),
{
    let mut bytes = [0u8; 2];
    LE::write_u16(&mut bytes, n);
    bytes.to_vec()
}

/// Calls `LE::write_u32` of byteorder on four bytes. Claimed: they become the
/// bytes of the number, the lowest first.
#[verifier::external_body]
pub(crate) fn put_u32(n: u32) -> (bytes: Vec<u8>)
    ensures
        bytes@ == le_bytes(n as nat, 4),
{
    let mut bytes = [0u8; 4];
    LE::write_u32(&mut bytes, n);
    bytes.to_vec()
}

/// Calls `LE::write_u64` of byteorder on eight bytes. Claimed: they become the
/// bytes of the number, the lowest first.
#[verifier::external_body]
pub(crate) fn put_u64(n: u64) -> (bytes: Vec<u8>)
    ensures
        bytes@ == le_bytes(n as nat, 8),
{
    let mut bytes = [0u8; 8];
    LE::write_u64(&mut bytes, n);
    bytes.to_vec()
}

/// Calls `LE::write_i64` of byteorder on eight bytes. Claimed: they become the
/// bytes of the unsigned number with the same bits, the lowest first.
#[verifier::external_body]
pub(crate) fn put_i64(n: i64) -> (bytes: Vec<u8>)
    ensures
        bytes@ == le_bytes(twos(n), 8),
{
    let mut bytes = [0u8; 8];
    LE::write_i64(&mut bytes, n);
    bytes.to_vec()
}

/// Calls `LE::read_u16` of byteorder. Claimed: the result is the number that
/// the two bytes stand for, the lowest first.
#[verifier::external_body]
fn get_u16(bytes: &[u8]) -> (n: u16)
    requires
        bytes@.len() == 2,
    ensures
        n as nat == le_value(bytes@),
{
    LE::read_u16(bytes)
}

/// Calls `LE::read_u32` of byteorder. Claimed: the result is the number that
/// the four bytes stand for, the lowest first.
#[verifier::external_body]
fn get_u32(bytes: &[u8]) -> (n: u32)
    requires
        bytes@.len() == 4,
    ensures
        n as nat == le_value(bytes@),
{
    LE::read_u32(bytes)
}

/// Calls `LE::read_u64` of byteorder. Claimed: the result is the number that
/// the eight bytes stand for, the lowest first.
#[verifier::external_body]
fn get_u64(bytes: &[u8]) -> (n: u64)
    requires
        bytes@.len() == 8,
    ensures
        n as nat == le_value(bytes@),
{
    LE::read_u64(bytes)
}

/// Calls `LE::read_i64` of byteorder. Claimed: the result is the signed number
/// with the bits of the number that the eight bytes stand for, the lowest
/// first.
#[verifier::external_body]
fn get_i64(bytes: &[u8]) -> (n: i64)
    requires
        bytes@.len() == 8,
    ensures
        twos(n) == le_value(bytes@),
{
    LE::read_i64(bytes)
}

// ---------------------------------------------------------------------------
// Reading
// ---------------------------------------------------------------------------

/// The next `n` bytes.
pub open spec fn parse_bytes(s: Seq<u8>, n: nat) -> Result<(Seq<u8>, Seq<u8>), Fault> {
    if n <= s.len() {
        Ok((s.take(n as int), s.skip(n as int)))
    } else {
        Err(Fault::Eof)
    }
}

/// The next byte.
pub open spec fn parse_u8(s: Seq<u8>) -> Result<(u8, Seq<u8>), Fault> {
    if s.len() >= 1 {
        Ok((s[0], s.skip(1)))
    } else {
        Err(Fault::Eof)
    }
}

/// The next number of 16 bits.
pub open spec fn parse_u16(s: Seq<u8>) -> Result<(u16, Seq<u8>), Fault> {
    if s.len() >= 2 {
        Ok((le_value(s.take(2)) as u16, s.skip(2)))
    } else {
        Err(Fault::Eof)
    }
}

/// The next number of 32 bits.
pub open spec fn parse_u32(s: Seq<u8>) -> Result<(u32, Seq<u8>), Fault> {
    if s.len() >= 4 {
        Ok((le_value(s.take(4)) as u32, s.skip(4)))
    } else {
        Err(Fault::Eof)
    }
}

/// The next number of 64 bits.
pub open spec fn parse_u64(s: Seq<u8>) -> Result<(u64, Seq<u8>), Fault> {
    if s.len() >= 8 {
        Ok((le_value(s.take(8)) as u64, s.skip(8)))
    } else {
        Err(Fault::Eof)
    }
}

/// The next signed number of 64 bits.
pub open spec fn parse_i64(s: Seq<u8>) -> Result<(i64, Seq<u8>), Fault> {
    if s.len() >= 8 {
        Ok((from_twos(le_value(s.take(8))), s.skip(8)))
    } else {
        Err(Fault::Eof)
    }
}

/// Reads `n` bytes.
pub fn fetch<R: ByteSource>(r: &mut R, n: usize) -> (got: Result<Vec<u8>, WireError>)
    ensures
        read_as(
            got,
            parse_bytes(old(r).upcoming(), n as nat),
            final(r).upcoming(),
            old(r).reliable(),
        ),
        final(r).reliable() == old(r).reliable(),
{
    match r.read_exact(n) {
        Ok(bytes) => Ok(bytes),
        Err(ReadError::Eof) => Err(WireError::Fault(Fault::Eof)),
        Err(ReadError::Io(e)) => Err(WireError::Io(e)),
    }
}

/// Reads a byte.
pub fn fetch_u8<R: ByteSource>(r: &mut R) -> (got: Result<u8, WireError>)
    ensures
        read_as(got, parse_u8(old(r).upcoming()), final(r).upcoming(), old(r).reliable()),
        final(r).reliable() == old(r).reliable(),
{
    match fetch(r, 1) {
        Ok(bytes) => Ok(bytes[0]),
        Err(e) => Err(e),
    }
}

/// Reads a number of 16 bits.
pub fn fetch_u16<R: ByteSource>(r: &mut R) -> (got: Result<u16, WireError>)
    ensures
        read_as(got, parse_u16(old(r).upcoming()), final(r).upcoming(), old(r).reliable()),
        final(r).reliable() == old(r).reliable(),
{
    match fetch(r, 2) {
        Ok(bytes) => Ok(get_u16(bytes.as_slice())),
        Err(e) => Err(e),
    }
}

/// Reads a number of 32 bits.
pub fn fetch_u32<R: ByteSource>(r: &mut R) -> (got: Result<u32, WireError>)
    ensures
        read_as(got, parse_u32(old(r).upcoming()), final(r).upcoming(), old(r).reliable()),
        final(r).reliable() == old(r).reliable(),
{
    match fetch(r, 4) {
        Ok(bytes) => Ok(get_u32(bytes.as_slice())),
        Err(e) => Err(e),
    }
}

/// Reads a number of 64 bits.
pub fn fetch_u64<R: ByteSource>(r: &mut R) -> (got: Result<u64, WireError>)
    ensures
        read_as(got, parse_u64(old(r).upcoming()), final(r).upcoming(), old(r).reliable()),
        final(r).reliable() == old(r).reliable(),
{
    match fetch(r, 8) {
        Ok(bytes) => Ok(get_u64(bytes.as_slice())),
        Err(e) => Err(e),
    }
}

/// Reads a signed number of 64 bits.
pub fn fetch_i64<R: ByteSource>(r: &mut R) -> (got: Result<i64, WireError>)
    ensures
        read_as(got, parse_i64(old(r).upcoming()), final(r).upcoming(), old(r).reliable()),
        final(r).reliable() == old(r).reliable(),
{
    match fetch(r, 8) {
        Ok(bytes) => Ok(get_i64(bytes.as_slice())),
        Err(e) => Err(e),
    }
}

// ---------------------------------------------------------------------------
// What was written is read
// ---------------------------------------------------------------------------

/// Bytes in front of others are read as they are.
pub proof fn lemma_parse_bytes(bytes: Seq<u8>, rest: Seq<u8>)
    ensures
        parse_bytes(bytes + rest, bytes.len()) == Ok::<(Seq<u8>, Seq<u8>), Fault>((bytes, rest)),
{
    assert((bytes + rest).take(bytes.len() as int) =~= bytes);
    assert((bytes + rest).skip(bytes.len() as int) =~= rest);
}

/// A byte in front of others is read as it is.
pub proof fn lemma_parse_u8(b: u8, rest: Seq<u8>)
    ensures
        parse_u8(seq![b] + rest) == Ok::<(u8, Seq<u8>), Fault>((b, rest)),
{
    assert((seq![b] + rest).skip(1) =~= rest);
}

/// The bytes of a number of 16 bits are read as that number.
pub proof fn lemma_parse_u16(n: u16, rest: Seq<u8>)
    ensures
        parse_u16(le_bytes(n as nat, 2) + rest) == Ok::<(u16, Seq<u8>), Fault>((n, rest)),
{
    lemma_field_ranges();
    law_le_round_trip(n as nat, 2);
    lemma_parse_bytes(le_bytes(n as nat, 2), rest);
}

/// The bytes of a number of 32 bits are read as that number.
pub proof fn lemma_parse_u32(n: u32, rest: Seq<u8>)
    ensures
        parse_u32(le_bytes(n as nat, 4) + rest) == Ok::<(u32, Seq<u8>), Fault>((n, rest)),
{
    lemma_field_ranges();
    law_le_round_trip(n as nat, 4);
    lemma_parse_bytes(le_bytes(n as nat, 4), rest);
}

/// The bytes of a number of 64 bits are read as that number.
pub proof fn lemma_parse_u64(n: u64, rest: Seq<u8>)
    ensures
        parse_u64(le_bytes(n as nat, 8) + rest) == Ok::<(u64, Seq<u8>), Fault>((n, rest)),
{
    lemma_field_ranges();
    law_le_round_trip(n as nat, 8);
    lemma_parse_bytes(le_bytes(n as nat, 8), rest);
}

/// The bytes of a signed number of 64 bits are read as that number.
pub proof fn lemma_parse_i64(n: i64, rest: Seq<u8>)
    ensures
        parse_i64(le_bytes(twos(n), 8) + rest) == Ok::<(i64, Seq<u8>), Fault>((n, rest)),
{
    lemma_field_ranges();
    law_le_round_trip(twos(n), 8);
    lemma_parse_bytes(le_bytes(twos(n), 8), rest);
}

/// Bytes are the bytes of the number that they stand for.
pub proof fn law_bytes_of_the_value(s: Seq<u8>)
    ensures
        le_value(s) < byte_range(s.len()),
        le_bytes(le_value(s), s.len()) == s,
    decreases s.len(),
{
    if s.len() > 0 {
        let rest = s.drop_first();
        law_bytes_of_the_value(rest);
        assert(le_value(s) % 256 == s[0]);
        assert(le_value(s) / 256 == le_value(rest));
        assert(seq![s[0]] + rest =~= s);
    }
}

/// A number of 16 bits that is read stands in front, as its bytes.
pub proof fn lemma_read_u16(s: Seq<u8>)
    ensures
        parse_u16(s) matches Ok((n, rest)) ==> s == le_bytes(n as nat, 2) + rest,
{
    if s.len() >= 2 {
        lemma_field_ranges();
        law_bytes_of_the_value(s.take(2));
        assert(s =~= s.take(2) + s.skip(2));
    }
}

/// A number of 32 bits that is read stands in front, as its bytes.
pub proof fn lemma_read_u32(s: Seq<u8>)
    ensures
        parse_u32(s) matches Ok((n, rest)) ==> s == le_bytes(n as nat, 4) + rest,
{
    if s.len() >= 4 {
        lemma_field_ranges();
        law_bytes_of_the_value(s.take(4));
        assert(s =~= s.take(4) + s.skip(4));
    }
}

/// A number of 64 bits that is read stands in front, as its bytes.
pub proof fn lemma_read_u64(s: Seq<u8>)
    ensures
        parse_u64(s) matches Ok((n, rest)) ==> s == le_bytes(n as nat, 8) + rest,
{
    if s.len() >= 8 {
        lemma_field_ranges();
        law_bytes_of_the_value(s.take(8));
        assert(s =~= s.take(8) + s.skip(8));
    }
}

/// A signed number of 64 bits that is read stands in front, as its bytes.
pub proof fn lemma_read_i64(s: Seq<u8>)
    ensures
        parse_i64(s) matches Ok((n, rest)) ==> s == le_bytes(twos(n), 8) + rest,
{
    if s.len() >= 8 {
        lemma_field_ranges();
        law_bytes_of_the_value(s.take(8));
        assert(s =~= s.take(8) + s.skip(8));
    }
}

/// Bytes that are read stand in front.
pub proof fn lemma_read_bytes(s: Seq<u8>, n: nat)
    ensures
        parse_bytes(s, n) matches Ok((bytes, rest)) ==> bytes.len() == n && s == bytes + rest,
        parse_bytes(s, n) is Ok <==> s.len() >= n,
        parse_bytes(s, n) is Err ==> parse_bytes(s, n) == Err::<(Seq<u8>, Seq<u8>), Fault>(
            Fault::Eof,
        ),
{
    if s.len() >= n {
        assert(s =~= s.take(n as int) + s.skip(n as int));
    }
}

} // verus!
