//! The bytes of the stored forms.
//!
//! Values are written one after the other, without names or padding:
//! - a number as a varint: seven bits to a byte, the least significant
//!   first, with the top bit of a byte set when another byte follows;
//! - a coordinate as the eight bytes of its bit pattern, the least
//!   significant first;
//! - a sequence of bytes as its length, a varint, followed by the bytes;
//! - a map as the number of its entries, a varint, followed by each key and
//!   its value;
//! - a value of several kinds as the number of its kind, a varint counting
//!   from zero in the order of declaration, followed by its fields.
//! What follows a value in the bytes is not looked at.

use crate::board::common::{keys_of, sorted_keys, TextureView};
use crate::store::v1::{BoardV1, BoardV1View, EventV1, EventV1View, Object, Texture};
use std::collections::HashMap;
use vstd::bytes::{
    lemma_auto_spec_u64_to_from_le_bytes, spec_u64_from_le_bytes, spec_u64_to_le_bytes,
    u64_from_le_bytes, u64_to_le_bytes,
};
use vstd::prelude::*;
use vstd::slice::slice_subrange;

verus! {

/// The most bytes that the varint of a 64-bit number takes.
pub const VARINT_U64_MAX: u8 = 10;

/// The most bytes that the varint of a 32-bit number takes.
pub const VARINT_U32_MAX: u8 = 5;

/// The varint of a number.
pub open spec fn varint(value: nat) -> Seq<u8>
    decreases value,
{
    if value < 128 {
        seq![value as u8]
    } else {
        seq![(value % 128 + 128) as u8] + varint(value / 128)
    }
}

/// The number that the varint at the start of `bytes` stands for, and the
/// number of bytes that it takes; `None` when the bytes end before the
/// varint does or the varint is longer than `limit` bytes.
pub open spec fn varint_at(bytes: Seq<u8>, limit: nat) -> Option<(nat, nat)>
    decreases limit,
{
    if limit == 0 || bytes.len() == 0 {
        None
    } else if bytes[0] < 128 {
        Some((bytes[0] as nat, 1))
    } else {
        match varint_at(bytes.drop_first(), (limit - 1) as nat) {
            Some((value, len)) => Some(((bytes[0] - 128 + 128 * value) as nat, len + 1)),
            None => None,
        }
    }
}

/// 128 to the power of `e`.
pub open spec fn pow128(e: nat) -> nat
    decreases e,
{
    if e == 0 {
        1
    } else {
        128 * pow128((e - 1) as nat)
    }
}

/// What is left of `bytes` after the first `n`.
pub open spec fn after(bytes: Seq<u8>, n: nat) -> Seq<u8> {
    bytes.subrange(n as int, bytes.len() as int)
}

/// The 64-bit number at the start of `bytes` and the number of bytes that
/// it takes.
pub open spec fn parse_u64(bytes: Seq<u8>) -> Option<(u64, nat)> {
    match varint_at(bytes, VARINT_U64_MAX as nat) {
        Some((value, len)) => if value <= u64::MAX {
            Some((value as u64, len))
        } else {
            None
        },
        None => None,
    }
}

/// The 32-bit number at the start of `bytes` and the number of bytes that
/// it takes.
pub open spec fn parse_u32(bytes: Seq<u8>) -> Option<(u32, nat)> {
    match varint_at(bytes, VARINT_U32_MAX as nat) {
        Some((value, len)) => if value <= u32::MAX {
            Some((value as u32, len))
        } else {
            None
        },
        None => None,
    }
}

/// The coordinate at the start of `bytes`.
pub open spec fn parse_coordinate(bytes: Seq<u8>) -> Option<(u64, nat)> {
    if bytes.len() >= 8 {
        Some((spec_u64_from_le_bytes(bytes.subrange(0, 8)), 8))
    } else {
        None
    }
}

/// The written form of a sequence of bytes.
pub open spec fn enc_bytes(data: Seq<u8>) -> Seq<u8> {
    varint(data.len()) + data
}

/// The sequence of bytes at the start of `bytes`.
pub open spec fn parse_bytes(bytes: Seq<u8>) -> Option<(Seq<u8>, nat)> {
    match parse_u64(bytes) {
        Some((len, n)) => if bytes.len() - n >= len {
            Some((bytes.subrange(n as int, n + len), (n + len) as nat))
        } else {
            None
        },
        None => None,
    }
}

/// A varint of up to `limit` bytes stands for less than 128 to the power
/// of `limit`, and lies within the bytes.
proof fn lemma_varint_at_bound(bytes: Seq<u8>, limit: nat)
    ensures
        varint_at(bytes, limit) matches Some((value, len)) ==> value < pow128(limit) && 1 <= len
            <= limit && len <= bytes.len(),
    decreases limit,
{
    if limit > 0 && bytes.len() > 0 {
        lemma_pow128_grows(0, (limit - 1) as nat);
        if bytes[0] >= 128 {
            lemma_varint_at_bound(bytes.drop_first(), (limit - 1) as nat);
        }
    }
}

/// A number below 128 to the power of `limit` has a varint of at most
/// `limit` bytes.
proof fn lemma_varint_len(value: nat, limit: nat)
    requires
        value < pow128(limit),
        limit >= 1,
    ensures
        1 <= varint(value).len() <= limit,
    decreases limit,
{
    if value >= 128 {
        assert(value / 128 < pow128((limit - 1) as nat)) by (nonlinear_arith)
            requires
                value < 128 * pow128((limit - 1) as nat),
        ;
        assert(limit >= 2) by {
            if limit == 1 {
                assert(pow128(0) == 1);
            }
        }
        lemma_varint_len(value / 128, (limit - 1) as nat);
    }
}

/// A varint that was written is read back, whatever follows it.
proof fn lemma_varint_round_trip(value: nat, rest: Seq<u8>, limit: nat)
    requires
        varint(value).len() <= limit,
    ensures
        varint_at(varint(value) + rest, limit) == Some((value, varint(value).len())),
    decreases value,
{
    let bytes = varint(value) + rest;
    if value < 128 {
        assert(bytes[0] == value as u8);
    } else {
        assert(bytes[0] == (value % 128 + 128) as u8);
        assert(bytes.drop_first() =~= varint(value / 128) + rest);
        lemma_varint_round_trip(value / 128, rest, (limit - 1) as nat);
    }
}

/// A 64-bit number that was written is read back.
pub proof fn lemma_u64_round_trip(value: u64, rest: Seq<u8>)
    ensures
        parse_u64(varint(value as nat) + rest) == Some((value, varint(value as nat).len())),
        1 <= varint(value as nat).len() <= VARINT_U64_MAX,
{
    assert(pow128(10) == 0x40_0000_0000_0000_0000) by {
        reveal_with_fuel(pow128, 11);
    }
    lemma_varint_len(value as nat, 10);
    lemma_varint_round_trip(value as nat, rest, 10);
}

/// A 32-bit number that was written is read back.
pub proof fn lemma_u32_round_trip(value: u32, rest: Seq<u8>)
    ensures
        parse_u32(varint(value as nat) + rest) == Some((value, varint(value as nat).len())),
        1 <= varint(value as nat).len() <= VARINT_U32_MAX,
{
    assert(pow128(5) == 0x8_0000_0000) by {
        reveal_with_fuel(pow128, 6);
    }
    lemma_varint_len(value as nat, 5);
    lemma_varint_round_trip(value as nat, rest, 5);
}

/// A coordinate that was written is read back.
pub proof fn lemma_coordinate_round_trip(value: u64, rest: Seq<u8>)
    ensures
        parse_coordinate(spec_u64_to_le_bytes(value) + rest) == Some((value, 8nat)),
        spec_u64_to_le_bytes(value).len() == 8,
{
    lemma_auto_spec_u64_to_from_le_bytes();
    assert((spec_u64_to_le_bytes(value) + rest).subrange(0, 8) =~= spec_u64_to_le_bytes(value));
}

/// A sequence of bytes that was written is read back.
pub proof fn lemma_bytes_round_trip(data: Seq<u8>, rest: Seq<u8>)
    requires
        data.len() <= u64::MAX,
    ensures
        parse_bytes(enc_bytes(data) + rest) == Some((data, enc_bytes(data).len())),
{
    let head = varint(data.len());
    let bytes = enc_bytes(data) + rest;
    assert(bytes =~= head + (data + rest));
    lemma_u64_round_trip(data.len() as u64, data + rest);
    assert(bytes.subrange(head.len() as int, (head.len() + data.len()) as int) =~= data);
}

/// Appends the varint of `value` to `out`.
pub fn write_varint(out: &mut Vec<u8>, value: u64)
    ensures
        final(out)@ == old(out)@ + varint(value as nat),
{
    let mut left = value;
    loop
        invariant_except_break
            old(out)@ + varint(value as nat) == out@ + varint(left as nat),
        ensures
            out@ == old(out)@ + varint(value as nat),
        decreases left,
    {
        if left < 128 {
            out.push(left as u8);
            assert(out@ =~= old(out)@ + varint(value as nat));
            break;
        }
        let ghost before = out@;
        out.push((left % 128 + 128) as u8);
        assert(before + varint(left as nat) =~= out@ + varint((left / 128) as nat));
        left = left / 128;
    }
}

/// Reads the varint at `at`, of at most `limit` bytes: the number and the
/// place after it.
fn read_varint(bytes: &[u8], at: usize, limit: u8) -> (read: Option<(u128, usize)>)
    requires
        at <= bytes@.len(),
        limit <= VARINT_U64_MAX,
    ensures
        match read {
            Some((value, next)) => varint_at(after(bytes@, at as nat), limit as nat) == Some(
                (value as nat, (next - at) as nat),
            ) && at < next <= bytes@.len(),
            None => varint_at(after(bytes@, at as nat), limit as nat) is None,
        },
    decreases limit,
{
    let ghost rest = after(bytes@, at as nat);
    if limit == 0 || at >= bytes.len() {
        return None;
    }
    let byte = bytes[at];
    assert(rest[0] == byte);
    if byte < 128 {
        return Some((byte as u128, at + 1));
    }
    assert(rest.drop_first() =~= after(bytes@, (at + 1) as nat));
    proof {
        lemma_varint_at_bound(after(bytes@, (at + 1) as nat), (limit - 1) as nat);
        assert(pow128(9) == 0x8000_0000_0000_0000) by {
            reveal_with_fuel(pow128, 10);
        }
        lemma_pow128_grows((limit - 1) as nat, 9);
    }
    match read_varint(bytes, at + 1, limit - 1) {
        Some((value, next)) => Some(((byte - 128) as u128 + 128 * value, next)),
        None => None,
    }
}

/// Powers of 128 grow with the exponent.
proof fn lemma_pow128_grows(small: nat, large: nat)
    requires
        small <= large,
    ensures
        pow128(small) <= pow128(large),
    decreases large,
{
    if small < large {
        lemma_pow128_grows(small, (large - 1) as nat);
    }
}

/// Reads the 64-bit number at `at`.
fn read_u64(bytes: &[u8], at: usize) -> (read: Option<(u64, usize)>)
    requires
        at <= bytes@.len(),
    ensures
        match read {
            Some((value, next)) => parse_u64(after(bytes@, at as nat)) == Some(
                (value, (next - at) as nat),
            ) && at < next <= bytes@.len(),
            None => parse_u64(after(bytes@, at as nat)) is None,
        },
{
    match read_varint(bytes, at, VARINT_U64_MAX) {
        Some((value, next)) => {
            if value <= u64::MAX as u128 {
                Some((value as u64, next))
            } else {
                None
            }
        },
        None => None,
    }
}

/// Reads the 32-bit number at `at`.
fn read_u32(bytes: &[u8], at: usize) -> (read: Option<(u32, usize)>)
    requires
        at <= bytes@.len(),
    ensures
        match read {
            Some((value, next)) => parse_u32(after(bytes@, at as nat)) == Some(
                (value, (next - at) as nat),
            ) && at < next <= bytes@.len(),
            None => parse_u32(after(bytes@, at as nat)) is None,
        },
{
    match read_varint(bytes, at, VARINT_U32_MAX) {
        Some((value, next)) => {
            if value <= u32::MAX as u128 {
                Some((value as u32, next))
            } else {
                None
            }
        },
        None => None,
    }
}

/// Reads the coordinate at `at`.
fn read_coordinate(bytes: &[u8], at: usize) -> (read: Option<(u64, usize)>)
    requires
        at <= bytes@.len(),
    ensures
        match read {
            Some((value, next)) => parse_coordinate(after(bytes@, at as nat)) == Some(
                (value, (next - at) as nat),
            ) && at < next <= bytes@.len(),
            None => parse_coordinate(after(bytes@, at as nat)) is None,
        },
{
    if bytes.len() - at < 8 {
        return None;
    }
    let value = u64_from_le_bytes(slice_subrange(bytes, at, at + 8));
    assert(bytes@.subrange(at as int, at + 8) =~= after(bytes@, at as nat).subrange(0, 8));
    Some((value, at + 8))
}

/// Reads the sequence of bytes at `at`.
fn read_bytes(bytes: &[u8], at: usize) -> (read: Option<(Vec<u8>, usize)>)
    requires
        at <= bytes@.len(),
    ensures
        match read {
            Some((data, next)) => parse_bytes(after(bytes@, at as nat)) == Some(
                (data@, (next - at) as nat),
            ) && at < next <= bytes@.len(),
            None => parse_bytes(after(bytes@, at as nat)) is None,
        },
{
    let (len, start) = match read_u64(bytes, at) {
        Some(read) => read,
        None => {
            return None;
        },
    };
    if ((bytes.len() - start) as u64) < len {
        return None;
    }
    let end = start + len as usize;
    let mut data: Vec<u8> = Vec::with_capacity(len as usize);
    let mut i: usize = start;
    while i < end
        invariant
            start <= i <= end <= bytes@.len(),
            data@ == bytes@.subrange(start as int, i as int),
        decreases end - i,
    {
        data.push(bytes[i]);
        assert(data@ =~= bytes@.subrange(start as int, i + 1));
        i = i + 1;
    }
    assert(data@ =~= after(bytes@, at as nat).subrange(start - at, start - at + len));
    Some((data, end))
}

/// Appends the written form of a sequence of bytes to `out`.
fn write_bytes(out: &mut Vec<u8>, data: &Vec<u8>)
    ensures
        final(out)@ == old(out)@ + enc_bytes(data@),
        data@.len() <= u64::MAX,
{
    write_varint(out, data.len() as u64);
    let ghost head = out@;
    let mut i: usize = 0;
    while i < data.len()
        invariant
            i <= data@.len(),
            out@ == head + data@.subrange(0, i as int),
        decreases data.len() - i,
    {
        out.push(data[i]);
        assert(out@ =~= head + data@.subrange(0, i + 1));
        i = i + 1;
    }
    assert(data@.subrange(0, data@.len() as int) =~= data@);
    assert(out@ =~= old(out)@ + enc_bytes(data@));
}

/// Appends a coordinate to `out`.
fn write_coordinate(out: &mut Vec<u8>, value: u64)
    ensures
        final(out)@ == old(out)@ + spec_u64_to_le_bytes(value),
{
    let raw = u64_to_le_bytes(value);
    let mut i: usize = 0;
    while i < raw.len()
        invariant
            i <= raw@.len(),
            out@ == old(out)@ + raw@.subrange(0, i as int),
        decreases raw.len() - i,
    {
        out.push(raw[i]);
        assert(out@ =~= old(out)@ + raw@.subrange(0, i + 1));
        i = i + 1;
    }
    assert(raw@.subrange(0, raw@.len() as int) =~= raw@);
}

/// The number of the kind of a texture that comes with its bytes.
pub const TEXTURE_NEW: u32 = 0;

/// The number of the kind of a texture that is given by name.
pub const TEXTURE_EXISTING: u32 = 1;

/// The number of the kind of the event that announces an image.
pub const EVENT_NEW_IMAGE: u32 = 0;

/// The number of the kind of an object that is an image.
pub const OBJECT_IMAGE: u32 = 0;

/// The number of the kind of an object that is a line.
pub const OBJECT_LINE: u32 = 1;

/// The written form of the texture of an event.
pub open spec fn enc_texture(texture: TextureView<u64>) -> Seq<u8> {
    match texture {
        TextureView::New { id, data } => varint(TEXTURE_NEW as nat) + varint(id as nat) + enc_bytes(
            data,
        ),
        TextureView::Existing { id } => varint(TEXTURE_EXISTING as nat) + varint(id as nat),
    }
}

/// The texture at the start of `bytes`.
pub open spec fn parse_texture(bytes: Seq<u8>) -> Option<(TextureView<u64>, nat)> {
    match parse_u32(bytes) {
        Some((kind, n0)) => match parse_u64(after(bytes, n0)) {
            Some((id, n1)) => if kind == TEXTURE_NEW {
                match parse_bytes(after(bytes, n0 + n1)) {
                    Some((data, n2)) => Some((TextureView::New { id, data }, n0 + n1 + n2)),
                    None => None,
                }
            } else if kind == TEXTURE_EXISTING {
                Some((TextureView::Existing { id }, n0 + n1))
            } else {
                None
            },
            None => None,
        },
        None => None,
    }
}

/// The written form of an event.
pub open spec fn enc_event(event: EventV1View) -> Seq<u8> {
    match event {
        EventV1View::NewImage { id, x, y, texture } => varint(EVENT_NEW_IMAGE as nat) + varint(
            id as nat,
        ) + spec_u64_to_le_bytes(x) + spec_u64_to_le_bytes(y) + enc_texture(texture),
    }
}

/// The event at the start of `bytes`.
pub open spec fn parse_event(bytes: Seq<u8>) -> Option<(EventV1View, nat)> {
    match parse_u32(bytes) {
        Some((kind, n0)) => if kind == EVENT_NEW_IMAGE {
            match parse_u64(after(bytes, n0)) {
                Some((id, n1)) => match parse_coordinate(after(bytes, n0 + n1)) {
                    Some((x, n2)) => match parse_coordinate(after(bytes, n0 + n1 + n2)) {
                        Some((y, n3)) => match parse_texture(after(bytes, n0 + n1 + n2 + n3)) {
                            Some((texture, n4)) => Some(
                                (EventV1View::NewImage { id, x, y, texture }, n0 + n1 + n2 + n3 + n4),
                            ),
                            None => None,
                        },
                        None => None,
                    },
                    None => None,
                },
                None => None,
            }
        } else {
            None
        },
        None => None,
    }
}

/// The event that `bytes` begin with, if they begin with one.
pub open spec fn decoded_event(bytes: Seq<u8>) -> Option<EventV1View> {
    match parse_event(bytes) {
        Some((event, _)) => Some(event),
        None => None,
    }
}

/// The written form of a stored object.
pub open spec fn enc_object(object: Object) -> Seq<u8> {
    match object {
        Object::Image { x, y, texture_id } => varint(OBJECT_IMAGE as nat) + spec_u64_to_le_bytes(x)
            + spec_u64_to_le_bytes(y) + varint(texture_id as nat),
        Object::Line => varint(OBJECT_LINE as nat),
    }
}

/// The stored object at the start of `bytes`.
pub open spec fn parse_object(bytes: Seq<u8>) -> Option<(Object, nat)> {
    match parse_u32(bytes) {
        Some((kind, n0)) => if kind == OBJECT_IMAGE {
            match parse_coordinate(after(bytes, n0)) {
                Some((x, n1)) => match parse_coordinate(after(bytes, n0 + n1)) {
                    Some((y, n2)) => match parse_u64(after(bytes, n0 + n1 + n2)) {
                        Some((texture_id, n3)) => Some(
                            (Object::Image { x, y, texture_id }, n0 + n1 + n2 + n3),
                        ),
                        None => None,
                    },
                    None => None,
                },
                None => None,
            }
        } else if kind == OBJECT_LINE {
            Some((Object::Line, n0))
        } else {
            None
        },
        None => None,
    }
}

/// What is left after `a` bytes and then `b` more is what is left after
/// `a + b` bytes.
proof fn lemma_after_after(bytes: Seq<u8>, a: nat, b: nat)
    requires
        a + b <= bytes.len(),
    ensures
        after(after(bytes, a), b) == after(bytes, a + b),
{
    assert(after(after(bytes, a), b) =~= after(bytes, a + b));
}

/// What is left of `head + tail` after `head` is `tail`.
proof fn lemma_after_head(head: Seq<u8>, tail: Seq<u8>)
    ensures
        after(head + tail, head.len()) == tail,
{
    assert(after(head + tail, head.len()) =~= tail);
}

/// A texture that was written is read back.
pub proof fn lemma_texture_round_trip(texture: TextureView<u64>, rest: Seq<u8>)
    requires
        texture matches TextureView::New { id, data } ==> data.len() <= u64::MAX,
    ensures
        parse_texture(enc_texture(texture) + rest) == Some((texture, enc_texture(texture).len())),
{
    let bytes = enc_texture(texture) + rest;
    match texture {
        TextureView::New { id, data } => {
            let a = varint(TEXTURE_NEW as nat);
            let b = varint(id as nat);
            let c = enc_bytes(data);
            assert(bytes =~= a + (b + c + rest));
            lemma_u32_round_trip(TEXTURE_NEW, b + c + rest);
            lemma_after_head(a, b + c + rest);
            assert(b + c + rest =~= b + (c + rest));
            lemma_u64_round_trip(id, c + rest);
            lemma_after_head(b, c + rest);
            lemma_after_after(bytes, a.len(), b.len());
            lemma_bytes_round_trip(data, rest);
        },
        TextureView::Existing { id } => {
            let a = varint(TEXTURE_EXISTING as nat);
            let b = varint(id as nat);
            assert(bytes =~= a + (b + rest));
            lemma_u32_round_trip(TEXTURE_EXISTING, b + rest);
            lemma_after_head(a, b + rest);
            lemma_u64_round_trip(id, rest);
        },
    }
}

/// An event that was written is read back, whatever follows it.
pub proof fn lemma_event_round_trip(event: EventV1View, rest: Seq<u8>)
    requires
        event matches EventV1View::NewImage { id, x, y, texture } && (
        texture matches TextureView::New { id: texture_id, data } ==> data.len() <= u64::MAX),
    ensures
        parse_event(enc_event(event) + rest) == Some((event, enc_event(event).len())),
        decoded_event(enc_event(event) + rest) == Some(event),
{
    let bytes = enc_event(event) + rest;
    match event {
        EventV1View::NewImage { id, x, y, texture } => {
            let a = varint(EVENT_NEW_IMAGE as nat);
            let b = varint(id as nat);
            let c = spec_u64_to_le_bytes(x);
            let d = spec_u64_to_le_bytes(y);
            let e = enc_texture(texture);
            let t4 = e + rest;
            let t3 = d + t4;
            let t2 = c + t3;
            let t1 = b + t2;
            assert(bytes == a + t1) by {
                assert(bytes =~= a + t1);
            }
            assert(parse_u32(bytes) == Some((EVENT_NEW_IMAGE, a.len())) && after(bytes, a.len())
                == t1) by {
                lemma_u32_round_trip(EVENT_NEW_IMAGE, t1);
                lemma_after_head(a, t1);
            }
            assert(parse_u64(t1) == Some((id, b.len())) && after(bytes, a.len() + b.len()) == t2) by {
                lemma_u64_round_trip(id, t2);
                lemma_after_head(b, t2);
                lemma_after_after(bytes, a.len(), b.len());
            }
            assert(parse_coordinate(t2) == Some((x, c.len())) && after(
                bytes,
                a.len() + b.len() + c.len(),
            ) == t3) by {
                lemma_coordinate_round_trip(x, t3);
                lemma_after_head(c, t3);
                lemma_after_after(bytes, a.len() + b.len(), c.len());
            }
            assert(parse_coordinate(t3) == Some((y, d.len())) && after(
                bytes,
                a.len() + b.len() + c.len() + d.len(),
            ) == t4) by {
                lemma_coordinate_round_trip(y, t4);
                lemma_after_head(d, t4);
                lemma_after_after(bytes, a.len() + b.len() + c.len(), d.len());
            }
            assert(parse_texture(t4) == Some((texture, e.len()))) by {
                lemma_texture_round_trip(texture, rest);
            }
            assert(enc_event(event).len() == a.len() + b.len() + c.len() + d.len() + e.len());
        },
    }
}

/// A stored object that was written is read back.
pub proof fn lemma_object_round_trip(object: Object, rest: Seq<u8>)
    ensures
        parse_object(enc_object(object) + rest) == Some((object, enc_object(object).len())),
{
    let bytes = enc_object(object) + rest;
    match object {
        Object::Image { x, y, texture_id } => {
            let a = varint(OBJECT_IMAGE as nat);
            let b = spec_u64_to_le_bytes(x);
            let c = spec_u64_to_le_bytes(y);
            let d = varint(texture_id as nat);
            assert(bytes =~= a + (b + c + d + rest));
            lemma_u32_round_trip(OBJECT_IMAGE, b + c + d + rest);
            lemma_after_head(a, b + c + d + rest);
            assert(b + c + d + rest =~= b + (c + d + rest));
            lemma_coordinate_round_trip(x, c + d + rest);
            lemma_after_head(b, c + d + rest);
            lemma_after_after(bytes, a.len(), b.len());
            assert(c + d + rest =~= c + (d + rest));
            lemma_coordinate_round_trip(y, d + rest);
            lemma_after_head(c, d + rest);
            lemma_after_after(bytes, a.len() + b.len(), c.len());
            lemma_u64_round_trip(texture_id, rest);
        },
        Object::Line => {
            lemma_u32_round_trip(OBJECT_LINE, rest);
        },
    }
}

/// Appends the written form of a texture to `out`.
fn write_texture(out: &mut Vec<u8>, texture: &Texture)
    ensures
        final(out)@ == old(out)@ + enc_texture(texture@),
{
    match texture {
        Texture::New { id, data } => {
            write_varint(out, TEXTURE_NEW as u64);
            write_varint(out, *id);
            write_bytes(out, data);
            assert(out@ =~= old(out)@ + enc_texture(texture@));
        },
        Texture::Existing { id } => {
            write_varint(out, TEXTURE_EXISTING as u64);
            write_varint(out, *id);
            assert(out@ =~= old(out)@ + enc_texture(texture@));
        },
    }
}

/// Appends the written form of a stored object to `out`.
fn write_object(out: &mut Vec<u8>, object: &Object)
    ensures
        final(out)@ == old(out)@ + enc_object(*object),
{
    match object {
        Object::Image { x, y, texture_id } => {
            write_varint(out, OBJECT_IMAGE as u64);
            write_coordinate(out, *x);
            write_coordinate(out, *y);
            write_varint(out, *texture_id);
            assert(out@ =~= old(out)@ + enc_object(*object));
        },
        Object::Line => {
            write_varint(out, OBJECT_LINE as u64);
        },
    }
}

/// The bytes of an event.
pub fn encode_event(event: &EventV1) -> (bytes: Vec<u8>)
    ensures
        bytes@ == enc_event(event@),
{
    let mut out: Vec<u8> = Vec::new();
    match event {
        EventV1::NewImage { id, x, y, texture } => {
            write_varint(&mut out, EVENT_NEW_IMAGE as u64);
            write_varint(&mut out, *id);
            write_coordinate(&mut out, *x);
            write_coordinate(&mut out, *y);
            write_texture(&mut out, texture);
            assert(out@ =~= enc_event(event@));
        },
    }
    out
}

/// Reads the texture at `at`.
fn read_texture(bytes: &[u8], at: usize) -> (read: Option<(Texture, usize)>)
    requires
        at <= bytes@.len(),
    ensures
        match read {
            Some((texture, next)) => parse_texture(after(bytes@, at as nat)) == Some(
                (texture@, (next - at) as nat),
            ) && at < next <= bytes@.len(),
            None => parse_texture(after(bytes@, at as nat)) is None,
        },
{
    let (kind, at1) = match read_u32(bytes, at) {
        Some(read) => read,
        None => {
            return None;
        },
    };
    proof {
        lemma_after_after(bytes@, at as nat, (at1 - at) as nat);
    }
    let (id, at2) = match read_u64(bytes, at1) {
        Some(read) => read,
        None => {
            return None;
        },
    };
    proof {
        lemma_after_after(bytes@, at as nat, (at2 - at) as nat);
    }
    if kind == TEXTURE_NEW {
        match read_bytes(bytes, at2) {
            Some((data, at3)) => Some((Texture::New { id, data }, at3)),
            None => None,
        }
    } else if kind == TEXTURE_EXISTING {
        Some((Texture::Existing { id }, at2))
    } else {
        None
    }
}

/// Reads the stored object at `at`.
fn read_object(bytes: &[u8], at: usize) -> (read: Option<(Object, usize)>)
    requires
        at <= bytes@.len(),
    ensures
        match read {
            Some((object, next)) => parse_object(after(bytes@, at as nat)) == Some(
                (object, (next - at) as nat),
            ) && at < next <= bytes@.len(),
            None => parse_object(after(bytes@, at as nat)) is None,
        },
{
    let (kind, at1) = match read_u32(bytes, at) {
        Some(read) => read,
        None => {
            return None;
        },
    };
    if kind == OBJECT_LINE {
        return Some((Object::Line, at1));
    }
    if kind != OBJECT_IMAGE {
        return None;
    }
    proof {
        lemma_after_after(bytes@, at as nat, (at1 - at) as nat);
    }
    let (x, at2) = match read_coordinate(bytes, at1) {
        Some(read) => read,
        None => {
            return None;
        },
    };
    proof {
        lemma_after_after(bytes@, at as nat, (at2 - at) as nat);
    }
    let (y, at3) = match read_coordinate(bytes, at2) {
        Some(read) => read,
        None => {
            return None;
        },
    };
    proof {
        lemma_after_after(bytes@, at as nat, (at3 - at) as nat);
    }
    match read_u64(bytes, at3) {
        Some((texture_id, at4)) => Some((Object::Image { x, y, texture_id }, at4)),
        None => None,
    }
}

/// Reads an event from the start of `bytes`; `None` when the bytes do not
/// begin with an event.
pub fn decode_event(bytes: &[u8]) -> (event: Option<EventV1>)
    ensures
        match event {
            Some(e) => decoded_event(bytes@) == Some(e@),
            None => decoded_event(bytes@) is None,
        },
{
    assert(after(bytes@, 0) =~= bytes@);
    let (kind, at1) = match read_u32(bytes, 0) {
        Some(read) => read,
        None => {
            return None;
        },
    };
    if kind != EVENT_NEW_IMAGE {
        return None;
    }
    let (id, at2) = match read_u64(bytes, at1) {
        Some(read) => read,
        None => {
            return None;
        },
    };
    let (x, at3) = match read_coordinate(bytes, at2) {
        Some(read) => read,
        None => {
            return None;
        },
    };
    let (y, at4) = match read_coordinate(bytes, at3) {
        Some(read) => read,
        None => {
            return None;
        },
    };
    match read_texture(bytes, at4) {
        Some((texture, _)) => Some(EventV1::NewImage { id, x, y, texture }),
        None => None,
    }
}

/// The written form of the entries of a map of textures, in the order
/// given.
pub open spec fn enc_texture_entries(entries: Seq<(u64, Seq<u8>)>) -> Seq<u8>
    decreases entries.len(),
{
    if entries.len() == 0 {
        Seq::empty()
    } else {
        varint(entries.first().0 as nat) + enc_bytes(entries.first().1) + enc_texture_entries(
            entries.drop_first(),
        )
    }
}

/// The written form of the entries of a map of objects, in the order given.
pub open spec fn enc_object_entries(entries: Seq<(u64, Object)>) -> Seq<u8>
    decreases entries.len(),
{
    if entries.len() == 0 {
        Seq::empty()
    } else {
        varint(entries.first().0 as nat) + enc_object(entries.first().1) + enc_object_entries(
            entries.drop_first(),
        )
    }
}

/// The written form of a board whose textures and objects are taken in the
/// order given.
pub open spec fn enc_board(textures: Seq<(u64, Seq<u8>)>, objects: Seq<(u64, Object)>) -> Seq<u8> {
    varint(textures.len()) + enc_texture_entries(textures) + varint(objects.len())
        + enc_object_entries(objects)
}

/// The map that holds `acc` and then the entries, put in one after the
/// other.
pub open spec fn map_of<V>(acc: Map<u64, V>, entries: Seq<(u64, V)>) -> Map<u64, V>
    decreases entries.len(),
{
    if entries.len() == 0 {
        acc
    } else {
        map_of(acc.insert(entries.first().0, entries.first().1), entries.drop_first())
    }
}

/// `count` entries of a map of textures at the start of `bytes`, put into
/// `acc`.
pub open spec fn parse_texture_entries(bytes: Seq<u8>, count: nat, acc: Map<u64, Seq<u8>>) -> Option<
    (Map<u64, Seq<u8>>, nat),
>
    decreases count,
{
    if count == 0 {
        Some((acc, 0))
    } else {
        match parse_u64(bytes) {
            Some((id, n0)) => match parse_bytes(after(bytes, n0)) {
                Some((data, n1)) => match parse_texture_entries(
                    after(bytes, n0 + n1),
                    (count - 1) as nat,
                    acc.insert(id, data),
                ) {
                    Some((map, n2)) => Some((map, n0 + n1 + n2)),
                    None => None,
                },
                None => None,
            },
            None => None,
        }
    }
}

/// `count` entries of a map of objects at the start of `bytes`, put into
/// `acc`.
pub open spec fn parse_object_entries(bytes: Seq<u8>, count: nat, acc: Map<u64, Object>) -> Option<
    (Map<u64, Object>, nat),
>
    decreases count,
{
    if count == 0 {
        Some((acc, 0))
    } else {
        match parse_u64(bytes) {
            Some((id, n0)) => match parse_object(after(bytes, n0)) {
                Some((object, n1)) => match parse_object_entries(
                    after(bytes, n0 + n1),
                    (count - 1) as nat,
                    acc.insert(id, object),
                ) {
                    Some((map, n2)) => Some((map, n0 + n1 + n2)),
                    None => None,
                },
                None => None,
            },
            None => None,
        }
    }
}

/// The stored board at the start of `bytes`: its textures, then its
/// objects.
pub open spec fn parse_board(bytes: Seq<u8>) -> Option<(BoardV1View, nat)> {
    match parse_u64(bytes) {
        Some((texture_count, n0)) => match parse_texture_entries(
            after(bytes, n0),
            texture_count as nat,
            Map::empty(),
        ) {
            Some((textures, n1)) => match parse_u64(after(bytes, n0 + n1)) {
                Some((object_count, n2)) => match parse_object_entries(
                    after(bytes, n0 + n1 + n2),
                    object_count as nat,
                    Map::empty(),
                ) {
                    Some((objects, n3)) => Some(
                        (BoardV1View { textures, objects }, n0 + n1 + n2 + n3),
                    ),
                    None => None,
                },
                None => None,
            },
            None => None,
        },
        None => None,
    }
}

/// The stored board that `bytes` begin with, if they begin with one.
pub open spec fn decoded_board(bytes: Seq<u8>) -> Option<BoardV1View> {
    match parse_board(bytes) {
        Some((board, _)) => Some(board),
        None => None,
    }
}

/// Whether `entries` are the entries of `map`, each once.
pub open spec fn entries_of<V>(entries: Seq<(u64, V)>, map: Map<u64, V>) -> bool {
    &&& forall|i: int, j: int|
        0 <= i < j < entries.len() ==> (#[trigger] entries[i]).0 != (#[trigger] entries[j]).0
    &&& forall|i: int|
        0 <= i < entries.len() ==> map.contains_key((#[trigger] entries[i]).0) && map[entries[i].0]
            == entries[i].1
    &&& forall|key: u64| #[trigger]
        map.contains_key(key) ==> exists|i: int| 0 <= i < entries.len() && (#[trigger] entries[i]).0 == key
}

/// Entries with distinct keys, put over `acc`, are all there, and `acc`
/// shows where no entry is.
proof fn lemma_map_of<V>(acc: Map<u64, V>, entries: Seq<(u64, V)>)
    requires
        forall|i: int, j: int|
            0 <= i < j < entries.len() ==> (#[trigger] entries[i]).0 != (#[trigger] entries[j]).0,
    ensures
        forall|i: int|
            0 <= i < entries.len() ==> map_of(acc, entries).contains_key((#[trigger] entries[i]).0)
                && map_of(acc, entries)[entries[i].0] == entries[i].1,
        forall|key: u64| #[trigger]
            map_of(acc, entries).contains_key(key) ==> acc.contains_key(key) || exists|i: int|
                0 <= i < entries.len() && (#[trigger] entries[i]).0 == key,
        forall|key: u64|
            acc.contains_key(key) && (forall|i: int|
                0 <= i < entries.len() ==> (#[trigger] entries[i]).0 != key) ==> #[trigger] map_of(
                acc,
                entries,
            ).contains_key(key) && map_of(acc, entries)[key] == acc[key],
    decreases entries.len(),
{
    if entries.len() > 0 {
        let first = entries.first();
        let rest = entries.drop_first();
        let next = acc.insert(first.0, first.1);
        assert forall|i: int, j: int| 0 <= i < j < rest.len() implies (#[trigger] rest[i]).0 != (
        #[trigger] rest[j]).0 by {
            assert(entries[i + 1].0 != entries[j + 1].0);
        }
        lemma_map_of(next, rest);
        let result = map_of(acc, entries);
        assert(result == map_of(next, rest));
        assert forall|i: int| 0 <= i < entries.len() implies result.contains_key(
            (#[trigger] entries[i]).0,
        ) && result[entries[i].0] == entries[i].1 by {
            if i == 0 {
                assert forall|j: int| 0 <= j < rest.len() implies (#[trigger] rest[j]).0
                    != first.0 by {
                    assert(entries[0].0 != entries[j + 1].0);
                }
                assert(next.contains_key(first.0));
            } else {
                assert(rest[i - 1] == entries[i]);
            }
        }
        assert forall|key: u64| #[trigger] result.contains_key(key) implies acc.contains_key(key)
            || exists|i: int| 0 <= i < entries.len() && (#[trigger] entries[i]).0 == key by {
            if next.contains_key(key) {
                if !acc.contains_key(key) {
                    assert(entries[0].0 == key);
                }
            } else {
                let j = choose|j: int| 0 <= j < rest.len() && (#[trigger] rest[j]).0 == key;
                assert(entries[j + 1].0 == key);
            }
        }
        assert forall|key: u64|
            acc.contains_key(key) && (forall|i: int|
                0 <= i < entries.len() ==> (#[trigger] entries[i]).0 != key) implies #[trigger] result.contains_key(
            key,
        ) && result[key] == acc[key] by {
            assert(entries[0].0 != key);
            assert forall|j: int| 0 <= j < rest.len() implies (#[trigger] rest[j]).0 != key by {
                assert(entries[j + 1].0 != key);
            }
            assert(next.contains_key(key));
        }
    }
}

/// The entries of a map, put into an empty map, make that map.
pub proof fn lemma_map_of_entries<V>(entries: Seq<(u64, V)>, map: Map<u64, V>)
    requires
        entries_of(entries, map),
    ensures
        map_of(Map::empty(), entries) == map,
{
    lemma_map_of(Map::<u64, V>::empty(), entries);
    let made = map_of(Map::<u64, V>::empty(), entries);
    assert forall|key: u64| made.contains_key(key) <==> map.contains_key(key) by {
        if made.contains_key(key) {
            let i = choose|i: int| 0 <= i < entries.len() && (#[trigger] entries[i]).0 == key;
            assert(map.contains_key(entries[i].0));
        }
        if map.contains_key(key) {
            let i = choose|i: int| 0 <= i < entries.len() && (#[trigger] entries[i]).0 == key;
            assert(made.contains_key(entries[i].0));
        }
    }
    assert forall|key: u64| made.contains_key(key) implies made[key] == map[key] by {
        let i = choose|i: int| 0 <= i < entries.len() && (#[trigger] entries[i]).0 == key;
        assert(made[entries[i].0] == entries[i].1);
    }
    assert(made =~= map);
}

/// The entries of a map of textures that were written are read back.
pub proof fn lemma_texture_entries_round_trip(
    entries: Seq<(u64, Seq<u8>)>,
    rest: Seq<u8>,
    acc: Map<u64, Seq<u8>>,
)
    requires
        forall|i: int| 0 <= i < entries.len() ==> (#[trigger] entries[i]).1.len() <= u64::MAX,
    ensures
        parse_texture_entries(enc_texture_entries(entries) + rest, entries.len(), acc) == Some(
            (map_of(acc, entries), enc_texture_entries(entries).len()),
        ),
    decreases entries.len(),
{
    let bytes = enc_texture_entries(entries) + rest;
    if entries.len() > 0 {
        let first = entries.first();
        let others = entries.drop_first();
        let a = varint(first.0 as nat);
        let b = enc_bytes(first.1);
        let t2 = enc_texture_entries(others) + rest;
        let t1 = b + t2;
        assert(entries[0].1.len() <= u64::MAX);
        assert(bytes == a + t1) by {
            assert(bytes =~= a + t1);
        }
        assert(parse_u64(bytes) == Some((first.0, a.len())) && after(bytes, a.len()) == t1) by {
            lemma_u64_round_trip(first.0, t1);
            lemma_after_head(a, t1);
        }
        assert(parse_bytes(t1) == Some((first.1, b.len())) && after(bytes, a.len() + b.len())
            == t2) by {
            lemma_bytes_round_trip(first.1, t2);
            lemma_after_head(b, t2);
            lemma_after_after(bytes, a.len(), b.len());
        }
        assert forall|i: int| 0 <= i < others.len() implies (#[trigger] others[i]).1.len()
            <= u64::MAX by {
            assert(others[i] == entries[i + 1]);
        }
        lemma_texture_entries_round_trip(others, rest, acc.insert(first.0, first.1));
        assert(enc_texture_entries(entries).len() == a.len() + b.len() + enc_texture_entries(
            others,
        ).len());
    } else {
        assert(bytes =~= rest);
    }
}

/// The entries of a map of objects that were written are read back.
pub proof fn lemma_object_entries_round_trip(
    entries: Seq<(u64, Object)>,
    rest: Seq<u8>,
    acc: Map<u64, Object>,
)
    ensures
        parse_object_entries(enc_object_entries(entries) + rest, entries.len(), acc) == Some(
            (map_of(acc, entries), enc_object_entries(entries).len()),
        ),
    decreases entries.len(),
{
    let bytes = enc_object_entries(entries) + rest;
    if entries.len() > 0 {
        let first = entries.first();
        let others = entries.drop_first();
        let a = varint(first.0 as nat);
        let b = enc_object(first.1);
        let t2 = enc_object_entries(others) + rest;
        let t1 = b + t2;
        assert(bytes == a + t1) by {
            assert(bytes =~= a + t1);
        }
        assert(parse_u64(bytes) == Some((first.0, a.len())) && after(bytes, a.len()) == t1) by {
            lemma_u64_round_trip(first.0, t1);
            lemma_after_head(a, t1);
        }
        assert(parse_object(t1) == Some((first.1, b.len())) && after(bytes, a.len() + b.len())
            == t2) by {
            lemma_object_round_trip(first.1, t2);
            lemma_after_head(b, t2);
            lemma_after_after(bytes, a.len(), b.len());
        }
        lemma_object_entries_round_trip(others, rest, acc.insert(first.0, first.1));
        assert(enc_object_entries(entries).len() == a.len() + b.len() + enc_object_entries(
            others,
        ).len());
    } else {
        assert(bytes =~= rest);
    }
}

/// A stored board that was written, with its textures and objects in any
/// order, is read back, whatever follows it.
pub proof fn lemma_board_round_trip(
    board: BoardV1View,
    textures: Seq<(u64, Seq<u8>)>,
    objects: Seq<(u64, Object)>,
    rest: Seq<u8>,
)
    requires
        entries_of(textures, board.textures),
        entries_of(objects, board.objects),
        textures.len() <= u64::MAX,
        objects.len() <= u64::MAX,
        forall|i: int| 0 <= i < textures.len() ==> (#[trigger] textures[i]).1.len() <= u64::MAX,
    ensures
        decoded_board(enc_board(textures, objects) + rest) == Some(board),
{
    let bytes = enc_board(textures, objects) + rest;
    let a = varint(textures.len());
    let b = enc_texture_entries(textures);
    let c = varint(objects.len());
    let d = enc_object_entries(objects);
    let t3 = d + rest;
    let t2 = c + t3;
    let t1 = b + t2;
    assert(bytes == a + t1) by {
        assert(bytes =~= a + t1);
    }
    assert(parse_u64(bytes) == Some((textures.len() as u64, a.len())) && after(bytes, a.len())
        == t1) by {
        lemma_u64_round_trip(textures.len() as u64, t1);
        lemma_after_head(a, t1);
    }
    assert(parse_texture_entries(t1, textures.len(), Map::empty()) == Some(
        (board.textures, b.len()),
    ) && after(bytes, a.len() + b.len()) == t2) by {
        lemma_texture_entries_round_trip(textures, t2, Map::empty());
        lemma_map_of_entries(textures, board.textures);
        lemma_after_head(b, t2);
        lemma_after_after(bytes, a.len(), b.len());
    }
    assert(parse_u64(t2) == Some((objects.len() as u64, c.len())) && after(
        bytes,
        a.len() + b.len() + c.len(),
    ) == t3) by {
        lemma_u64_round_trip(objects.len() as u64, t3);
        lemma_after_head(c, t3);
        lemma_after_after(bytes, a.len() + b.len(), c.len());
    }
    assert(parse_object_entries(t3, objects.len(), Map::empty()) == Some(
        (board.objects, d.len()),
    )) by {
        lemma_object_entries_round_trip(objects, rest, Map::empty());
        lemma_map_of_entries(objects, board.objects);
    }
}

/// The bytes of the textures in `map`, by name.
pub open spec fn textures_view(map: HashMap<u64, Vec<u8>>) -> Map<u64, Seq<u8>> {
    Map::new(|id: u64| map@.contains_key(id), |id: u64| map@[id]@)
}

/// Entries followed by one more are written as the entries followed by
/// that one.
proof fn lemma_texture_entries_push(entries: Seq<(u64, Seq<u8>)>, last: (u64, Seq<u8>))
    ensures
        enc_texture_entries(entries.push(last)) == enc_texture_entries(entries) + varint(
            last.0 as nat,
        ) + enc_bytes(last.1),
    decreases entries.len(),
{
    let longer = entries.push(last);
    if entries.len() == 0 {
        assert(longer.first() == last);
        assert(longer.drop_first() =~= Seq::<(u64, Seq<u8>)>::empty());
        assert(enc_texture_entries(longer.drop_first()) =~= Seq::<u8>::empty());
        assert(enc_texture_entries(longer) =~= enc_texture_entries(entries) + varint(last.0 as nat)
            + enc_bytes(last.1));
    } else {
        lemma_texture_entries_push(entries.drop_first(), last);
        assert(longer.drop_first() =~= entries.drop_first().push(last));
        assert(longer.first() == entries.first());
        assert(enc_texture_entries(longer) =~= enc_texture_entries(entries) + varint(last.0 as nat)
            + enc_bytes(last.1));
    }
}

/// Entries followed by one more are written as the entries followed by
/// that one.
proof fn lemma_object_entries_push(entries: Seq<(u64, Object)>, last: (u64, Object))
    ensures
        enc_object_entries(entries.push(last)) == enc_object_entries(entries) + varint(
            last.0 as nat,
        ) + enc_object(last.1),
    decreases entries.len(),
{
    let longer = entries.push(last);
    if entries.len() == 0 {
        assert(longer.first() == last);
        assert(longer.drop_first() =~= Seq::<(u64, Object)>::empty());
        assert(enc_object_entries(longer.drop_first()) =~= Seq::<u8>::empty());
        assert(enc_object_entries(longer) =~= enc_object_entries(entries) + varint(last.0 as nat)
            + enc_object(last.1));
    } else {
        lemma_object_entries_push(entries.drop_first(), last);
        assert(longer.drop_first() =~= entries.drop_first().push(last));
        assert(longer.first() == entries.first());
        assert(enc_object_entries(longer) =~= enc_object_entries(entries) + varint(last.0 as nat)
            + enc_object(last.1));
    }
}

/// The entries of a map, from the smallest key to the largest.
pub open spec fn sorted_entries<V>(map: Map<u64, V>) -> Seq<(u64, V)> {
    let keys = sorted_keys(map.dom());
    Seq::new(keys.len(), |i: int| (keys[i], map[keys[i]]))
}

/// The entries that a walk over the keys of a map comes by are the entries
/// of the map.
proof fn lemma_walk_entries<V>(keys: Seq<u64>, entries: Seq<(u64, V)>, map: Map<u64, V>)
    requires
        keys.no_duplicates(),
        keys.to_set() == map.dom(),
        entries.len() == keys.len(),
        forall|i: int| 0 <= i < keys.len() ==> (#[trigger] entries[i]) == (keys[i], map[keys[i]]),
    ensures
        entries_of(entries, map),
{
    assert forall|i: int| 0 <= i < entries.len() implies map.contains_key((#[trigger] entries[i]).0)
        && map[entries[i].0] == entries[i].1 by {
        assert(keys.to_set().contains(keys[i]));
    }
    assert forall|key: u64| #[trigger] map.contains_key(key) implies exists|i: int|
        0 <= i < entries.len() && (#[trigger] entries[i]).0 == key by {
        assert(keys.to_set().contains(key));
        let i = choose|i: int| 0 <= i < keys.len() && keys[i] == key;
        assert(entries[i].0 == key);
    }
}

/// The bytes of a stored board. The entries of its maps are written from
/// the smallest key to the largest, so that a board has one written form.
/// The bytes are read back as the board.
pub fn encode_board(board: &BoardV1) -> (bytes: Vec<u8>)
    ensures
        bytes@ == enc_board(sorted_entries(board@.textures), sorted_entries(board@.objects)),
        decoded_board(bytes@) == Some(board@),
{
    let mut out: Vec<u8> = Vec::new();
    let texture_ids = keys_of(&board.textures);
    write_varint(&mut out, texture_ids.len() as u64);
    let ghost mut textures: Seq<(u64, Seq<u8>)> = Seq::empty();
    let ghost texture_map = board@.textures;
    let mut i: usize = 0;
    while i < texture_ids.len()
        invariant
            i <= texture_ids@.len(),
            texture_ids@.to_set() == board.textures@.dom(),
            texture_map == board@.textures,
            textures.len() == i,
            forall|j: int|
                0 <= j < i ==> (#[trigger] textures[j]) == (texture_ids@[j], texture_map[texture_ids@[j]])
                    && textures[j].1.len() <= u64::MAX,
            out@ == varint(texture_ids@.len()) + enc_texture_entries(textures),
        decreases texture_ids.len() - i,
    {
        let id = texture_ids[i];
        assert(texture_ids@.to_set().contains(id));
        let ghost before = out@;
        match board.textures.get(&id) {
            Some(data) => {
                write_varint(&mut out, id);
                write_bytes(&mut out, data);
                proof {
                    lemma_texture_entries_push(textures, (id, data@));
                    textures = textures.push((id, data@));
                    assert(out@ =~= varint(texture_ids@.len()) + enc_texture_entries(textures));
                }
            },
            None => {},
        }
        i = i + 1;
    }
    let object_ids = keys_of(&board.objects);
    write_varint(&mut out, object_ids.len() as u64);
    let ghost head = out@;
    let ghost mut objects: Seq<(u64, Object)> = Seq::empty();
    let mut k: usize = 0;
    while k < object_ids.len()
        invariant
            k <= object_ids@.len(),
            object_ids@.to_set() == board.objects@.dom(),
            objects.len() == k,
            forall|j: int|
                0 <= j < k ==> (#[trigger] objects[j]) == (object_ids@[j], board.objects@[object_ids@[j]]),
            out@ == head + enc_object_entries(objects),
        decreases object_ids.len() - k,
    {
        let id = object_ids[k];
        assert(object_ids@.to_set().contains(id));
        match board.objects.get(&id) {
            Some(object) => {
                write_varint(&mut out, id);
                write_object(&mut out, object);
                proof {
                    lemma_object_entries_push(objects, (id, *object));
                    objects = objects.push((id, *object));
                    assert(out@ =~= head + enc_object_entries(objects));
                }
            },
            None => {},
        }
        k = k + 1;
    }
    proof {
        assert(texture_map.dom() =~= board.textures@.dom());
        lemma_walk_entries(texture_ids@, textures, texture_map);
        lemma_walk_entries(object_ids@, objects, board@.objects);
        lemma_board_round_trip(board@, textures, objects, Seq::empty());
        assert(out@ =~= enc_board(textures, objects));
        assert(out@ =~= enc_board(textures, objects) + Seq::<u8>::empty());
        assert(textures =~= sorted_entries(board@.textures));
        assert(objects =~= sorted_entries(board@.objects));
    }
    out
}

/// Reads `count` entries of a map of textures at `at`.
fn read_texture_entries(bytes: &[u8], at: usize, count: u64) -> (read: Option<
    (HashMap<u64, Vec<u8>>, usize),
>)
    requires
        at <= bytes@.len(),
    ensures
        match read {
            Some((map, next)) => parse_texture_entries(
                after(bytes@, at as nat),
                count as nat,
                Map::empty(),
            ) == Some((textures_view(map), (next - at) as nat)) && at <= next <= bytes@.len(),
            None => parse_texture_entries(after(bytes@, at as nat), count as nat, Map::empty())
                is None,
        },
{
    let mut map: HashMap<u64, Vec<u8>> = HashMap::new();
    let mut here: usize = at;
    let mut i: u64 = 0;
    assert(textures_view(map) =~= Map::<u64, Seq<u8>>::empty());
    while i < count
        invariant
            i <= count,
            at <= here <= bytes@.len(),
            parse_texture_entries(after(bytes@, at as nat), count as nat, Map::empty()) == (
            match parse_texture_entries(
                after(bytes@, here as nat),
                (count - i) as nat,
                textures_view(map),
            ) {
                Some((all, n)) => Some((all, (n + here - at) as nat)),
                None => None,
            }),
        decreases count - i,
    {
        let (id, at1) = match read_u64(bytes, here) {
            Some(read) => read,
            None => {
                return None;
            },
        };
        proof {
            lemma_after_after(bytes@, here as nat, (at1 - here) as nat);
        }
        let (data, at2) = match read_bytes(bytes, at1) {
            Some(read) => read,
            None => {
                return None;
            },
        };
        proof {
            lemma_after_after(bytes@, here as nat, (at2 - here) as nat);
        }
        let ghost before = textures_view(map);
        let ghost content = data@;
        map.insert(id, data);
        assert(textures_view(map) =~= before.insert(id, content));
        here = at2;
        i = i + 1;
    }
    Some((map, here))
}

/// Reads `count` entries of a map of objects at `at`.
fn read_object_entries(bytes: &[u8], at: usize, count: u64) -> (read: Option<
    (HashMap<u64, Object>, usize),
>)
    requires
        at <= bytes@.len(),
    ensures
        match read {
            Some((map, next)) => parse_object_entries(
                after(bytes@, at as nat),
                count as nat,
                Map::empty(),
            ) == Some((map@, (next - at) as nat)) && at <= next <= bytes@.len(),
            None => parse_object_entries(after(bytes@, at as nat), count as nat, Map::empty())
                is None,
        },
{
    let mut map: HashMap<u64, Object> = HashMap::new();
    let mut here: usize = at;
    let mut i: u64 = 0;
    while i < count
        invariant
            i <= count,
            at <= here <= bytes@.len(),
            parse_object_entries(after(bytes@, at as nat), count as nat, Map::empty()) == (
            match parse_object_entries(after(bytes@, here as nat), (count - i) as nat, map@) {
                Some((all, n)) => Some((all, (n + here - at) as nat)),
                None => None,
            }),
        decreases count - i,
    {
        let (id, at1) = match read_u64(bytes, here) {
            Some(read) => read,
            None => {
                return None;
            },
        };
        proof {
            lemma_after_after(bytes@, here as nat, (at1 - here) as nat);
        }
        let (object, at2) = match read_object(bytes, at1) {
            Some(read) => read,
            None => {
                return None;
            },
        };
        proof {
            lemma_after_after(bytes@, here as nat, (at2 - here) as nat);
        }
        map.insert(id, object);
        here = at2;
        i = i + 1;
    }
    Some((map, here))
}

/// Reads a stored board from the start of `bytes`; `None` when the bytes do
/// not begin with one. Of two entries with the same key the later one
/// stays.
pub fn decode_board(bytes: &[u8]) -> (board: Option<BoardV1>)
    ensures
        match board {
            Some(b) => decoded_board(bytes@) == Some(b@),
            None => decoded_board(bytes@) is None,
        },
{
    assert(after(bytes@, 0) =~= bytes@);
    let (texture_count, at1) = match read_u64(bytes, 0) {
        Some(read) => read,
        None => {
            return None;
        },
    };
    let (textures, at2) = match read_texture_entries(bytes, at1, texture_count) {
        Some(read) => read,
        None => {
            return None;
        },
    };
    let (object_count, at3) = match read_u64(bytes, at2) {
        Some(read) => read,
        None => {
            return None;
        },
    };
    match read_object_entries(bytes, at3, object_count) {
        Some((objects, _)) => {
            let board = BoardV1 { textures, objects };
            assert(board@.textures =~= textures_view(textures));
            Some(board)
        },
        None => None,
    }
}

} // verus!
