//! The wire form of a participant record.
//!
//! A record is written without any frame around it, field after field:
//!
//! | field            | bytes                                             |
//! |------------------|---------------------------------------------------|
//! | `id`             | its UTF-8 length as 8 bytes, then the UTF-8 bytes |
//! | `position.0`     | 4                                                 |
//! | `position.1`     | 4                                                 |
//! | `angle`          | 4                                                 |
//! | `just_shot`      | 1, holding 0 or 1                                 |
//! | `current_health` | 4, two's complement                               |
//!
//! All integers are little-endian. A reader takes one record from the front
//! of what it was given and ignores whatever follows it.

use vstd::prelude::*;
use vstd::slice::*;
use vstd::utf8::*;
use crate::player::{Player, PlayerView};
use crate::text::string_from_utf8;

verus! {

/// The four bytes of `x`, least significant first.
#[verifier::opaque]
pub open spec fn u32_le(x: u32) -> Seq<u8> {
    seq![
        (x % 256) as u8,
        (x / 256 % 256) as u8,
        (x / 65536 % 256) as u8,
        (x / 16777216) as u8,
    ]
}

/// The number whose four bytes, least significant first, are `bytes`.
#[verifier::opaque]
pub open spec fn u32_from_le(bytes: Seq<u8>) -> u32
    recommends
        bytes.len() == 4,
{
    (bytes[0] + 256 * bytes[1] + 65536 * bytes[2] + 16777216 * bytes[3]) as u32
}

/// The eight bytes of `x`, least significant first.
pub open spec fn u64_le(x: u64) -> Seq<u8> {
    u32_le((x % 0x1_0000_0000) as u32) + u32_le((x / 0x1_0000_0000) as u32)
}

/// The number whose eight bytes, least significant first, are `bytes`.
pub open spec fn u64_from_le(bytes: Seq<u8>) -> u64
    recommends
        bytes.len() == 8,
{
    (u32_from_le(bytes.subrange(0, 4)) + 0x1_0000_0000 * u32_from_le(bytes.subrange(4, 8))) as u64
}

/// The two's complement pattern of a signed number.
pub open spec fn i32_bits(x: i32) -> u32 {
    if x >= 0 {
        x as u32
    } else {
        (x + 0x1_0000_0000) as u32
    }
}

/// The signed number that a two's complement pattern stands for.
pub open spec fn i32_of_bits(bits: u32) -> i32 {
    if bits < 0x8000_0000 {
        bits as i32
    } else {
        (bits - 0x1_0000_0000) as i32
    }
}

/// The byte that stands for a flag.
pub open spec fn flag_byte(flag: bool) -> u8 {
    if flag {
        1
    } else {
        0
    }
}

/// Number of bytes that follow the identity in a record.
pub const FIXED_PART: usize = 17;

/// A record whose identity is short enough for its length to be written in
/// eight bytes. Every `Player` in memory is one.
pub open spec fn encodable(p: PlayerView) -> bool {
    encode_utf8(p.id).len() <= u64::MAX
}

/// The wire form of a record.
pub open spec fn wire_bytes(p: PlayerView) -> Seq<u8> {
    u64_le(encode_utf8(p.id).len() as u64) + encode_utf8(p.id) + u32_le(p.position.0) + u32_le(
        p.position.1,
    ) + u32_le(p.angle) + seq![flag_byte(p.just_shot)] + u32_le(i32_bits(p.current_health))
}

/// Why a byte sequence does not begin with a record.
#[derive(Clone, Copy, Debug, PartialEq, Eq, Structural)]
pub enum DecodeError {
    /// The bytes end before the record does.
    UnexpectedEnd,
    /// The identity is not well-formed UTF-8.
    InvalidText,
    /// The byte of the fire flag is neither 0 nor 1; it is the one given.
    InvalidFlag(u8),
}

/// What one read on a connection brought.
pub enum ReadEvent {
    /// The read returned these bytes, possibly none.
    Data(Vec<u8>),
    /// The read failed.
    Failed,
}

/// What a reader makes of `bytes`: the record at their front, or the first
/// fault met when reading field after field.
pub open spec fn parse_wire(bytes: Seq<u8>) -> Result<PlayerView, DecodeError> {
    if bytes.len() < 8 {
        Err(DecodeError::UnexpectedEnd)
    } else {
        let n = u64_from_le(bytes.subrange(0, 8)) as int;
        if bytes.len() - 8 < n {
            Err(DecodeError::UnexpectedEnd)
        } else {
            let text = bytes.subrange(8, 8 + n);
            let rest = bytes.subrange(8 + n, bytes.len() as int);
            if !valid_utf8(text) {
                Err(DecodeError::InvalidText)
            } else if rest.len() < 13 {
                Err(DecodeError::UnexpectedEnd)
            } else if rest[12] > 1 {
                Err(DecodeError::InvalidFlag(rest[12]))
            } else if rest.len() < 17 {
                Err(DecodeError::UnexpectedEnd)
            } else {
                Ok(
                    PlayerView {
                        id: decode_utf8(text),
                        position: (
                            u32_from_le(rest.subrange(0, 4)),
                            u32_from_le(rest.subrange(4, 8)),
                        ),
                        angle: u32_from_le(rest.subrange(8, 12)),
                        just_shot: rest[12] == 1,
                        current_health: i32_of_bits(u32_from_le(rest.subrange(13, 17))),
                    },
                )
            }
        }
    }
}

/// Appends the four bytes of `x` to `out`.
fn push_u32(out: &mut Vec<u8>, x: u32)
    ensures
        final(out)@ == old(out)@ + u32_le(x),
{
    proof {
        reveal(u32_le);
    }
    out.push((x % 256) as u8);
    out.push((x / 256 % 256) as u8);
    out.push((x / 65536 % 256) as u8);
    out.push((x / 16777216) as u8);
    assert(out@ =~= old(out)@ + u32_le(x));
}

/// Appends the eight bytes of `x` to `out`.
fn push_u64(out: &mut Vec<u8>, x: u64)
    ensures
        final(out)@ == old(out)@ + u64_le(x),
{
    push_u32(out, (x % 0x1_0000_0000) as u32);
    push_u32(out, (x / 0x1_0000_0000) as u32);
    assert(out@ =~= old(out)@ + u64_le(x));
}

/// Reads four bytes at `at`.
fn read_u32(bytes: &[u8], at: usize) -> (x: u32)
    requires
        at + 4 <= bytes@.len(),
    ensures
        x == u32_from_le(bytes@.subrange(at as int, at + 4)),
{
    proof {
        reveal(u32_from_le);
    }
    let b0: u32 = bytes[at] as u32;
    let b1: u32 = bytes[at + 1] as u32;
    let b2: u32 = bytes[at + 2] as u32;
    let b3: u32 = bytes[at + 3] as u32;
    b0 + 256 * b1 + 65536 * b2 + 16777216 * b3
}

/// Reads eight bytes at `at`.
fn read_u64(bytes: &[u8], at: usize) -> (x: u64)
    requires
        at + 8 <= bytes@.len(),
    ensures
        x == u64_from_le(bytes@.subrange(at as int, at + 8)),
{
    let total: usize = bytes.len();
    let low: u64 = read_u32(bytes, at) as u64;
    let high: u64 = read_u32(bytes, at + 4) as u64;
    proof {
        let part = bytes@.subrange(at as int, at + 8);
        assert(part.subrange(0, 4) =~= bytes@.subrange(at as int, at + 4));
        assert(part.subrange(4, 8) =~= bytes@.subrange(at + 4, at + 8));
    }
    low + 0x1_0000_0000 * high
}

/// The two's complement pattern of `x`.
fn bits_of_i32(x: i32) -> (bits: u32)
    ensures
        bits == i32_bits(x),
{
    if x >= 0 {
        x as u32
    } else {
        let above: u32 = (x - i32::MIN) as u32;
        above + 0x8000_0000
    }
}

/// The signed number with pattern `bits`.
fn i32_from_bits(bits: u32) -> (x: i32)
    ensures
        x == i32_of_bits(bits),
{
    if bits < 0x8000_0000 {
        bits as i32
    } else {
        let above: i32 = (bits - 0x8000_0000) as i32;
        above + i32::MIN
    }
}

/// Writes a record in its wire form.
pub fn encode(player: &Player) -> (bytes: Vec<u8>)
    ensures
        bytes@ == wire_bytes(player@),
        encodable(player@),
{
    let text = player.id.as_str().as_bytes();
    let mut out: Vec<u8> = Vec::new();
    push_u64(&mut out, text.len() as u64);
    out.extend_from_slice(text);
    push_u32(&mut out, player.position.0);
    push_u32(&mut out, player.position.1);
    push_u32(&mut out, player.angle);
    out.push(if player.just_shot { 1 } else { 0 });
    push_u32(&mut out, bits_of_i32(player.current_health));
    assert(out@ =~= wire_bytes(player@));
    out
}

/// Reads the record at the front of `bytes`. Bytes after the record are
/// ignored; a fault is reported as the first one met.
pub fn decode(bytes: &[u8]) -> (outcome: Result<Player, DecodeError>)
    ensures
        match parse_wire(bytes@) {
            Ok(record) => outcome is Ok && outcome->Ok_0@ == record,
            Err(fault) => outcome is Err && outcome->Err_0 == fault,
        },
{
    let total: usize = bytes.len();
    if total < 8 {
        return Err(DecodeError::UnexpectedEnd);
    }
    let n: u64 = read_u64(bytes, 0);
    if ((total - 8) as u64) < n {
        return Err(DecodeError::UnexpectedEnd);
    }
    let start: usize = 8 + n as usize;
    let text: Vec<u8> = slice_to_vec(slice_subrange(bytes, 8, start));
    let ghost rest = bytes@.subrange(start as int, total as int);
    let id = match string_from_utf8(text) {
        Some(id) => id,
        None => {
            return Err(DecodeError::InvalidText);
        },
    };
    proof {
        encode_utf8_decode_utf8(id@);
    }
    let left: usize = total - start;
    if left < 13 {
        return Err(DecodeError::UnexpectedEnd);
    }
    let x: u32 = read_u32(bytes, start);
    let y: u32 = read_u32(bytes, start + 4);
    let angle: u32 = read_u32(bytes, start + 8);
    let flag: u8 = bytes[start + 12];
    proof {
        assert(rest.subrange(0, 4) =~= bytes@.subrange(start as int, start + 4));
        assert(rest.subrange(4, 8) =~= bytes@.subrange(start + 4, start + 8));
        assert(rest.subrange(8, 12) =~= bytes@.subrange(start + 8, start + 12));
        assert(rest[12] == bytes@[start + 12]);
    }
    if flag > 1 {
        return Err(DecodeError::InvalidFlag(flag));
    }
    if left < FIXED_PART {
        return Err(DecodeError::UnexpectedEnd);
    }
    let health: i32 = i32_from_bits(read_u32(bytes, start + 13));
    proof {
        assert(rest.subrange(13, 17) =~= bytes@.subrange(start + 13, start + 17));
    }
    Ok(Player { id, position: (x, y), angle, just_shot: flag == 1, current_health: health })
}

/// Four bytes written and read again give the number back.
pub proof fn lemma_u32_round_trip(x: u32)
    ensures
        u32_le(x).len() == 4,
        u32_from_le(u32_le(x)) == x,
{
    reveal(u32_le);
    reveal(u32_from_le);
}

/// Any four bytes are the bytes of the number read from them.
pub proof fn lemma_u32_bytes_round_trip(bytes: Seq<u8>)
    requires
        bytes.len() == 4,
    ensures
        u32_le(u32_from_le(bytes)) == bytes,
{
    reveal(u32_le);
    reveal(u32_from_le);
    let b0 = bytes[0] as int;
    let b1 = bytes[1] as int;
    let b2 = bytes[2] as int;
    let b3 = bytes[3] as int;
    let x = b0 + 256 * b1 + 65536 * b2 + 16777216 * b3;
    lemma_digits(b0, b1 + 256 * b2 + 65536 * b3, 256);
    lemma_digits(b1, b2 + 256 * b3, 256);
    lemma_digits(b0 + 256 * b1, b2 + 256 * b3, 65536);
    lemma_digits(b2, b3, 256);
    lemma_digits(b0 + 256 * b1 + 65536 * b2, b3, 16777216);
    assert(x % 256 == b0);
    assert(x / 256 % 256 == b1);
    assert(x / 65536 % 256 == b2);
    assert(x / 16777216 == b3);
    assert(u32_le(u32_from_le(bytes)) =~= bytes);
}

/// A number written as a low part below `base` and a high part splits into
/// them again by remainder and quotient.
proof fn lemma_digits(low: int, high: int, base: int)
    requires
        0 <= low < base,
        0 <= high,
    ensures
        (low + base * high) % base == low,
        (low + base * high) / base == high,
{
    assert(base * high == high * base) by (nonlinear_arith);
    vstd::arithmetic::div_mod::lemma_fundamental_div_mod_converse(
        low + base * high,
        base,
        high,
        low,
    );
}

/// Eight bytes written and read again give the number back.
pub proof fn lemma_u64_round_trip(x: u64)
    ensures
        u64_le(x).len() == 8,
        u64_from_le(u64_le(x)) == x,
{
    let low = (x % 0x1_0000_0000) as u32;
    let high = (x / 0x1_0000_0000) as u32;
    lemma_u32_round_trip(low);
    lemma_u32_round_trip(high);
    assert(u64_le(x).subrange(0, 4) =~= u32_le(low));
    assert(u64_le(x).subrange(4, 8) =~= u32_le(high));
}

/// Any eight bytes are the bytes of the number read from them.
pub proof fn lemma_u64_bytes_round_trip(bytes: Seq<u8>)
    requires
        bytes.len() == 8,
    ensures
        u64_le(u64_from_le(bytes)) == bytes,
{
    let low = bytes.subrange(0, 4);
    let high = bytes.subrange(4, 8);
    lemma_u32_bytes_round_trip(low);
    lemma_u32_bytes_round_trip(high);
    let x = u64_from_le(bytes);
    lemma_digits(u32_from_le(low) as int, u32_from_le(high) as int, 0x1_0000_0000);
    assert((x % 0x1_0000_0000) as u32 == u32_from_le(low));
    assert((x / 0x1_0000_0000) as u32 == u32_from_le(high));
    assert(u64_le(x) =~= low + high);
    assert(low + high =~= bytes);
}

/// A signed number and its two's complement pattern determine each other.
pub proof fn lemma_i32_round_trip(x: i32, bits: u32)
    ensures
        i32_of_bits(i32_bits(x)) == x,
        i32_bits(i32_of_bits(bits)) == bits,
{
}

/// The length of a record on the wire: eight bytes of length, the identity,
/// and seventeen bytes for the other fields.
pub proof fn lemma_wire_len(p: PlayerView)
    ensures
        wire_bytes(p).len() == 8 + encode_utf8(p.id).len() + 17,
{
    lemma_u64_round_trip(encode_utf8(p.id).len() as u64);
    lemma_u32_round_trip(p.position.0);
    lemma_u32_round_trip(p.position.1);
    lemma_u32_round_trip(p.angle);
    lemma_u32_round_trip(i32_bits(p.current_health));
}

/// Decoding is the inverse of encoding, whatever follows the record: a reader
/// given the wire form of a record, alone or with more bytes behind it, reads
/// that record, field for field.
pub proof fn lemma_decode_inverts_encode(p: PlayerView, trailing: Seq<u8>)
    requires
        encodable(p),
    ensures
        parse_wire(wire_bytes(p) + trailing) == Ok::<PlayerView, DecodeError>(p),
        parse_wire(wire_bytes(p)) == Ok::<PlayerView, DecodeError>(p),
{
    lemma_wire_followed_by(p, trailing);
    lemma_wire_followed_by(p, Seq::empty());
    assert(wire_bytes(p) + Seq::<u8>::empty() =~= wire_bytes(p));
}

proof fn lemma_wire_followed_by(p: PlayerView, trailing: Seq<u8>)
    requires
        encodable(p),
    ensures
        parse_wire(wire_bytes(p) + trailing) == Ok::<PlayerView, DecodeError>(p),
{
    let text = encode_utf8(p.id);
    let n = text.len() as u64;
    let bytes = wire_bytes(p) + trailing;
    let health = i32_bits(p.current_health);
    lemma_u64_round_trip(n);
    lemma_u32_round_trip(p.position.0);
    lemma_u32_round_trip(p.position.1);
    lemma_u32_round_trip(p.angle);
    lemma_u32_round_trip(health);
    lemma_i32_round_trip(p.current_health, 0);
    encode_utf8_valid_utf8(p.id);
    encode_utf8_decode_utf8(p.id);
    assert(bytes.subrange(0, 8) =~= u64_le(n));
    assert(bytes.subrange(8, 8 + n) =~= text);
    let rest = bytes.subrange(8 + n, bytes.len() as int);
    assert(rest.subrange(0, 4) =~= u32_le(p.position.0));
    assert(rest.subrange(4, 8) =~= u32_le(p.position.1));
    assert(rest.subrange(8, 12) =~= u32_le(p.angle));
    assert(rest[12] == flag_byte(p.just_shot));
    assert(rest.subrange(13, 17) =~= u32_le(health));
    let read = parse_wire(bytes)->Ok_0;
    assert(parse_wire(bytes) is Ok);
    assert(read.id == p.id);
    assert(read.position == p.position);
    assert(read.angle == p.angle);
    assert(read.just_shot == p.just_shot);
    assert(read.current_health == p.current_health);
}

/// What a reader accepts begins with the wire form of the record it read: a
/// record has one wire form only, and a reader reads nothing else.
pub proof fn lemma_accepted_begins_with_wire(bytes: Seq<u8>)
    requires
        parse_wire(bytes) is Ok,
    ensures
        encodable(parse_wire(bytes)->Ok_0),
        wire_bytes(parse_wire(bytes)->Ok_0).len() <= bytes.len(),
        bytes.subrange(0, wire_bytes(parse_wire(bytes)->Ok_0).len() as int) == wire_bytes(
            parse_wire(bytes)->Ok_0,
        ),
{
    let p = parse_wire(bytes)->Ok_0;
    let n = u64_from_le(bytes.subrange(0, 8)) as int;
    let text = bytes.subrange(8, 8 + n);
    let rest = bytes.subrange(8 + n, bytes.len() as int);
    decode_utf8_encode_utf8(text);
    assert(encode_utf8(p.id) == text);
    lemma_u64_bytes_round_trip(bytes.subrange(0, 8));
    lemma_u32_bytes_round_trip(rest.subrange(0, 4));
    lemma_u32_bytes_round_trip(rest.subrange(4, 8));
    lemma_u32_bytes_round_trip(rest.subrange(8, 12));
    lemma_u32_bytes_round_trip(rest.subrange(13, 17));
    lemma_i32_round_trip(0, u32_from_le(rest.subrange(13, 17)));
    assert(flag_byte(p.just_shot) == rest[12]);
    assert(u64_le(text.len() as u64) == bytes.subrange(0, 8));
    assert(u32_le(p.position.0) == rest.subrange(0, 4));
    assert(u32_le(p.position.1) == rest.subrange(4, 8));
    assert(u32_le(p.angle) == rest.subrange(8, 12));
    assert(u32_le(i32_bits(p.current_health)) == rest.subrange(13, 17));
    lemma_wire_len(p);
    lemma_pieces(bytes, n);
}

/// The fields of a record, taken from the bytes one after another, make up
/// the front of those bytes.
proof fn lemma_pieces(bytes: Seq<u8>, n: int)
    requires
        0 <= n,
        8 + n + 17 <= bytes.len(),
    ensures
        ({
            let rest = bytes.subrange(8 + n, bytes.len() as int);
            bytes.subrange(0, 8) + bytes.subrange(8, 8 + n) + rest.subrange(0, 4) + rest.subrange(
                4,
                8,
            ) + rest.subrange(8, 12) + seq![rest[12]] + rest.subrange(13, 17) == bytes.subrange(
                0,
                8 + n + 17,
            )
        }),
{
    let rest = bytes.subrange(8 + n, bytes.len() as int);
    assert(bytes.subrange(0, 8) + bytes.subrange(8, 8 + n) + rest.subrange(0, 4) + rest.subrange(
        4,
        8,
    ) + rest.subrange(8, 12) + seq![rest[12]] + rest.subrange(13, 17) =~= bytes.subrange(
        0,
        8 + n + 17,
    ));
}

} // verus!
