//! Big-endian primitives and the cursor-based encode/decode contracts.
use vstd::prelude::*;
use crate::error::{MarshalError, UnmarshalError};

verus! {

/// `buf` with `data` written over the bytes that start at `at`.
pub open spec fn splice(buf: Seq<u8>, at: int, data: Seq<u8>) -> Seq<u8> {
    buf.subrange(0, at) + data + buf.subrange(at + data.len(), buf.len() as int)
}

/// A 16-bit number on the wire: high byte first.
pub open spec fn be16(v: u16) -> Seq<u8> {
    seq![(v >> 8) as u8, (v & 0xff) as u8]
}

/// A 32-bit number on the wire: highest byte first.
pub open spec fn be32(v: u32) -> Seq<u8> {
    seq![
        (v >> 24) as u8,
        ((v >> 16) & 0xff) as u8,
        ((v >> 8) & 0xff) as u8,
        (v & 0xff) as u8,
    ]
}

/// A 64-bit number on the wire: highest byte first.
pub open spec fn be64(v: u64) -> Seq<u8> {
    seq![
        (v >> 56) as u8,
        ((v >> 48) & 0xff) as u8,
        ((v >> 40) & 0xff) as u8,
        ((v >> 32) & 0xff) as u8,
        ((v >> 24) & 0xff) as u8,
        ((v >> 16) & 0xff) as u8,
        ((v >> 8) & 0xff) as u8,
        (v & 0xff) as u8,
    ]
}

/// The 16-bit number with high byte `b0` and low byte `b1`.
pub open spec fn join16(b0: u8, b1: u8) -> u16 {
    (b0 as u16) << 8 | (b1 as u16)
}

/// The 32-bit number whose bytes are `b0` to `b3`, highest first.
pub open spec fn join32(b0: u8, b1: u8, b2: u8, b3: u8) -> u32 {
    (b0 as u32) << 24 | (b1 as u32) << 16 | (b2 as u32) << 8 | (b3 as u32)
}

/// The 64-bit number whose bytes are `b0` to `b7`, highest first.
pub open spec fn join64(b0: u8, b1: u8, b2: u8, b3: u8, b4: u8, b5: u8, b6: u8, b7: u8) -> u64 {
    (b0 as u64) << 56 | (b1 as u64) << 48 | (b2 as u64) << 40 | (b3 as u64) << 32 | (b4 as u64)
        << 24 | (b5 as u64) << 16 | (b6 as u64) << 8 | (b7 as u64)
}

/// The number that the first two bytes of `s` hold.
pub open spec fn from_be16(s: Seq<u8>) -> u16 {
    join16(s[0], s[1])
}

/// The number that the first four bytes of `s` hold.
pub open spec fn from_be32(s: Seq<u8>) -> u32 {
    join32(s[0], s[1], s[2], s[3])
}

/// The number that the first eight bytes of `s` hold.
pub open spec fn from_be64(s: Seq<u8>) -> u64 {
    join64(s[0], s[1], s[2], s[3], s[4], s[5], s[6], s[7])
}

/// A flag on the wire: one byte, 1 for `true` and 0 for `false`.
pub open spec fn bool_byte(b: bool) -> Seq<u8> {
    seq![if b { 1u8 } else { 0u8 }]
}

/// A byte field on the wire: 16-bit length, then the bytes.
pub open spec fn sized(data: Seq<u8>) -> Seq<u8> {
    be16(data.len() as u16) + data
}

/// What an encoder owes its caller: nothing changes on failure, and on
/// success exactly `wire` lands at the cursor, which moves past it.
pub open spec fn marshal_outcome(
    encodable: bool,
    wire: Seq<u8>,
    buf0: Seq<u8>,
    pos0: usize,
    buf1: Seq<u8>,
    pos1: usize,
    r: Result<(), MarshalError>,
) -> bool {
    if !encodable {
        r == Err::<(), MarshalError>(MarshalError::FieldTooLong) && buf1 == buf0 && pos1 == pos0
    } else if pos0 + wire.len() > buf0.len() {
        r == Err::<(), MarshalError>(MarshalError::BufferTooSmall) && buf1 == buf0 && pos1 == pos0
    } else {
        r == Ok::<(), MarshalError>(()) && pos1 == pos0 + wire.len() && buf1 == splice(
            buf0,
            pos0 as int,
            wire,
        )
    }
}

/// An encoder never reports a partial write as success: into less space
/// than the exact length of the encoding, a value that has an encoding
/// fails with `BufferTooSmall`, and buffer and cursor stay as they were.
pub proof fn lemma_short_buffer_is_refused(
    wire: Seq<u8>,
    buf0: Seq<u8>,
    pos0: usize,
    buf1: Seq<u8>,
    pos1: usize,
    r: Result<(), MarshalError>,
)
    requires
        marshal_outcome(true, wire, buf0, pos0, buf1, pos1, r),
        buf0.len() - pos0 < wire.len(),
    ensures
        r == Err::<(), MarshalError>(MarshalError::BufferTooSmall),
        buf1 == buf0,
        pos1 == pos0,
{
}

/// A successful encoder moves the cursor by exactly the length of the
/// encoding and leaves every byte outside it as it was.
pub proof fn lemma_success_writes_exactly(
    encodable: bool,
    wire: Seq<u8>,
    buf0: Seq<u8>,
    pos0: usize,
    buf1: Seq<u8>,
    pos1: usize,
    r: Result<(), MarshalError>,
)
    requires
        marshal_outcome(encodable, wire, buf0, pos0, buf1, pos1, r),
        r.is_ok(),
    ensures
        encodable,
        pos1 - pos0 == wire.len(),
        buf1.len() == buf0.len(),
        buf1.subrange(pos0 as int, pos1 as int) == wire,
        forall|i: int| 0 <= i < pos0 || pos1 <= i < buf0.len() ==> buf1[i] == buf0[i],
{
    assert(buf1.subrange(pos0 as int, pos1 as int) =~= wire);
}

/// A value with a wire encoding.
pub trait Marshal {
    /// The exact bytes of the value on the wire.
    spec fn wire(&self) -> Seq<u8>;

    /// Whether the wire format can express the value at all.
    spec fn encodable(&self) -> bool;

    /// Writes the encoding at `*pos` and advances `*pos` past it, or fails
    /// and leaves both untouched.
    fn marshal(&self, buf: &mut [u8], pos: &mut usize) -> (r: Result<(), MarshalError>)
        ensures
            marshal_outcome(
                self.encodable(),
                self.wire(),
                old(buf)@,
                *old(pos),
                final(buf)@,
                *final(pos),
                r,
            ),
    ;
}

/// A value that can be decoded from the front of an input slice.
pub trait Unmarshal<'a>: Sized {
    /// On which inputs decoding succeeds and how many bytes it consumes, or
    /// which error it reports.
    spec fn outcome(input: Seq<u8>) -> Result<int, UnmarshalError>;

    /// Whether `self` is the value that the front of `input` encodes.
    spec fn decoded_from(&self, input: Seq<u8>) -> bool;

    /// Decodes the front of `*buf` into `self` and advances `*buf` past the
    /// bytes consumed. On failure neither `self` nor `*buf` is to be relied on.
    fn unmarshal(&mut self, buf: &mut &'a [u8]) -> (r: Result<(), UnmarshalError>)
        ensures
            match Self::outcome(old(buf)@) {
                Ok(n) => r.is_ok() && final(self).decoded_from(old(buf)@) && final(buf)@ == old(buf)@.skip(n),
                Err(e) => r == Err::<(), UnmarshalError>(e),
            },
    ;
}

/// The two bytes of `v`, high byte first.
pub fn u16_to_be(v: u16) -> (r: [u8; 2])
    ensures
        r@ == be16(v),
{
    let r: [u8; 2] = [(v >> 8) as u8, (v & 0xff) as u8];
    assert(r@ =~= be16(v));
    r
}

/// The four bytes of `v`, highest first.
pub fn u32_to_be(v: u32) -> (r: [u8; 4])
    ensures
        r@ == be32(v),
{
    let r: [u8; 4] = [
        (v >> 24) as u8,
        ((v >> 16) & 0xff) as u8,
        ((v >> 8) & 0xff) as u8,
        (v & 0xff) as u8,
    ];
    assert(r@ =~= be32(v));
    r
}

/// The eight bytes of `v`, highest first.
pub fn u64_to_be(v: u64) -> (r: [u8; 8])
    ensures
        r@ == be64(v),
{
    let r: [u8; 8] = [
        (v >> 56) as u8,
        ((v >> 48) & 0xff) as u8,
        ((v >> 40) & 0xff) as u8,
        ((v >> 32) & 0xff) as u8,
        ((v >> 24) & 0xff) as u8,
        ((v >> 16) & 0xff) as u8,
        ((v >> 8) & 0xff) as u8,
        (v & 0xff) as u8,
    ];
    assert(r@ =~= be64(v));
    r
}

/// Splitting a joined number gives the bytes back.
pub proof fn lemma_split_of_join(s: Seq<u8>)
    ensures
        s.len() == 2 ==> be16(from_be16(s)) == s,
        s.len() == 4 ==> be32(from_be32(s)) == s,
        s.len() == 8 ==> be64(from_be64(s)) == s,
{
    if s.len() == 2 {
        let (b0, b1) = (s[0], s[1]);
        let v = join16(b0, b1);
        assert(v == (b0 as u16) << 8 | (b1 as u16) ==> (v >> 8) as u8 == b0 && (v & 0xff) as u8
            == b1) by (bit_vector);
        assert(be16(v) =~= s);
    }
    if s.len() == 4 {
        let (b0, b1, b2, b3) = (s[0], s[1], s[2], s[3]);
        let v = join32(b0, b1, b2, b3);
        assert(v == (b0 as u32) << 24 | (b1 as u32) << 16 | (b2 as u32) << 8 | (b3 as u32) ==> (v
            >> 24) as u8 == b0 && ((v >> 16) & 0xff) as u8 == b1 && ((v >> 8) & 0xff) as u8 == b2
            && (v & 0xff) as u8 == b3) by (bit_vector);
        assert(be32(v) =~= s);
    }
    if s.len() == 8 {
        let (b0, b1, b2, b3) = (s[0], s[1], s[2], s[3]);
        let (b4, b5, b6, b7) = (s[4], s[5], s[6], s[7]);
        let v = join64(b0, b1, b2, b3, b4, b5, b6, b7);
        assert(v == (b0 as u64) << 56 | (b1 as u64) << 48 | (b2 as u64) << 40 | (b3 as u64) << 32
            | (b4 as u64) << 24 | (b5 as u64) << 16 | (b6 as u64) << 8 | (b7 as u64) ==> (v >> 56) as u8
            == b0 && ((v >> 48) & 0xff) as u8 == b1 && ((v >> 40) & 0xff) as u8 == b2 && ((v >> 32)
            & 0xff) as u8 == b3 && ((v >> 24) & 0xff) as u8 == b4 && ((v >> 16) & 0xff) as u8 == b5
            && ((v >> 8) & 0xff) as u8 == b6 && (v & 0xff) as u8 == b7) by (bit_vector);
        assert(be64(v) =~= s);
    }
}

/// Joining the bytes of a number gives the number back, at each width.
pub proof fn lemma_join_of_split(a: u16, b: u32, c: u64)
    ensures
        from_be16(be16(a)) == a,
        from_be32(be32(b)) == b,
        from_be64(be64(c)) == c,
{
    assert((((a >> 8) as u8) as u16) << 8 | (((a & 0xff) as u8) as u16) == a) by (bit_vector);
    assert((((b >> 24) as u8) as u32) << 24 | ((((b >> 16) & 0xff) as u8) as u32) << 16 | ((((b
        >> 8) & 0xff) as u8) as u32) << 8 | (((b & 0xff) as u8) as u32) == b) by (bit_vector);
    assert((((c >> 56) as u8) as u64) << 56 | ((((c >> 48) & 0xff) as u8) as u64) << 48 | ((((c
        >> 40) & 0xff) as u8) as u64) << 40 | ((((c >> 32) & 0xff) as u8) as u64) << 32 | ((((c
        >> 24) & 0xff) as u8) as u64) << 24 | ((((c >> 16) & 0xff) as u8) as u64) << 16 | ((((c
        >> 8) & 0xff) as u8) as u64) << 8 | (((c & 0xff) as u8) as u64) == c) by (bit_vector);
}

/// The number that two bytes hold, high byte first.
pub fn u16_from_be(a: &[u8; 2]) -> (v: u16)
    ensures
        v == from_be16(a@),
        be16(v) == a@,
{
    proof {
        lemma_split_of_join(a@);
    }
    (a[0] as u16) << 8 | (a[1] as u16)
}

/// The number that four bytes hold, highest first.
pub fn u32_from_be(a: &[u8; 4]) -> (v: u32)
    ensures
        v == from_be32(a@),
        be32(v) == a@,
{
    proof {
        lemma_split_of_join(a@);
    }
    (a[0] as u32) << 24 | (a[1] as u32) << 16 | (a[2] as u32) << 8 | (a[3] as u32)
}

/// The number that eight bytes hold, highest first.
pub fn u64_from_be(a: &[u8; 8]) -> (v: u64)
    ensures
        v == from_be64(a@),
        be64(v) == a@,
{
    proof {
        lemma_split_of_join(a@);
    }
    (a[0] as u64) << 56 | (a[1] as u64) << 48 | (a[2] as u64) << 40 | (a[3] as u64) << 32 | (
    a[4] as u64) << 24 | (a[5] as u64) << 16 | (a[6] as u64) << 8 | (a[7] as u64)
}

/// Writes `data` at `*pos` and moves `*pos` past it, or fails and changes
/// nothing where fewer than `data.len()` bytes are left.
pub fn write_bytes(buf: &mut [u8], pos: &mut usize, data: &[u8]) -> (r: Result<(), MarshalError>)
    ensures
        marshal_outcome(true, data@, old(buf)@, *old(pos), final(buf)@, *final(pos), r),
{
    let start: usize = *pos;
    let n: usize = data.len();
    if start > buf.len() || n > buf.len() - start {
        return Err(MarshalError::BufferTooSmall);
    }
    let ghost before = buf@;
    let mut i: usize = 0;
    while i < n
        invariant
            i <= n,
            n == data@.len(),
            start + n <= buf@.len() <= usize::MAX,
            buf@.len() == before.len(),
            forall|k: int|
                0 <= k < buf@.len() ==> buf@[k] == if start <= k < start + i {
                    data@[k - start]
                } else {
                    before[k]
                },
        decreases n - i,
    {
        buf[start + i] = data[i];
        i += 1;
    }
    *pos = start + n;
    assert(buf@ =~= splice(before, start as int, data@));
    Ok(())
}

/// Writes one byte at the cursor, or fails and changes nothing.
pub fn marshal_u8(v: u8, buf: &mut [u8], pos: &mut usize) -> (r: Result<(), MarshalError>)
    ensures
        marshal_outcome(true, seq![v], old(buf)@, *old(pos), final(buf)@, *final(pos), r),
{
    let a: [u8; 1] = [v];
    assert(a@ =~= seq![v]);
    write_bytes(buf, pos, a.as_slice())
}

/// Writes a flag as one byte at the cursor, or fails and changes nothing.
pub fn marshal_bool(v: bool, buf: &mut [u8], pos: &mut usize) -> (r: Result<(), MarshalError>)
    ensures
        marshal_outcome(true, bool_byte(v), old(buf)@, *old(pos), final(buf)@, *final(pos), r),
{
    let a: [u8; 1] = [if v { 1u8 } else { 0u8 }];
    assert(a@ =~= bool_byte(v));
    write_bytes(buf, pos, a.as_slice())
}

/// Writes two bytes, high byte first, or fails and changes nothing.
pub fn marshal_u16(v: u16, buf: &mut [u8], pos: &mut usize) -> (r: Result<(), MarshalError>)
    ensures
        marshal_outcome(true, be16(v), old(buf)@, *old(pos), final(buf)@, *final(pos), r),
{
    let a = u16_to_be(v);
    write_bytes(buf, pos, a.as_slice())
}

/// Writes four bytes, highest first, or fails and changes nothing.
pub fn marshal_u32(v: u32, buf: &mut [u8], pos: &mut usize) -> (r: Result<(), MarshalError>)
    ensures
        marshal_outcome(true, be32(v), old(buf)@, *old(pos), final(buf)@, *final(pos), r),
{
    let a = u32_to_be(v);
    write_bytes(buf, pos, a.as_slice())
}

/// Writes eight bytes, highest first, or fails and changes nothing.
pub fn marshal_u64(v: u64, buf: &mut [u8], pos: &mut usize) -> (r: Result<(), MarshalError>)
    ensures
        marshal_outcome(true, be64(v), old(buf)@, *old(pos), final(buf)@, *final(pos), r),
{
    let a = u64_to_be(v);
    write_bytes(buf, pos, a.as_slice())
}

/// Writes a byte field: its length in 16 bits, then the bytes. A field of
/// more than 65535 bytes has no encoding.
pub fn marshal_sized(data: &[u8], buf: &mut [u8], pos: &mut usize) -> (r: Result<
    (),
    MarshalError,
>)
    ensures
        marshal_outcome(
            data@.len() <= 0xffff,
            sized(data@),
            old(buf)@,
            *old(pos),
            final(buf)@,
            *final(pos),
            r,
        ),
{
    let n: usize = data.len();
    if n > 0xffff {
        return Err(MarshalError::FieldTooLong);
    }
    let start: usize = *pos;
    if start > buf.len() || n + 2 > buf.len() - start {
        return Err(MarshalError::BufferTooSmall);
    }
    let ghost before = buf@;
    let _ = marshal_u16(n as u16, buf, pos);
    let _ = write_bytes(buf, pos, data);
    proof {
        lemma_splice_append(before, start as int, be16(n as u16), data@);
    }
    Ok(())
}

/// Splits the first `n` bytes off `*buf`, or fails with `Truncated` and
/// leaves `*buf` as it was.
pub fn pop_slice<'a>(n: usize, buf: &mut &'a [u8]) -> (r: Result<&'a [u8], UnmarshalError>)
    ensures
        n <= old(buf)@.len() ==> r.is_ok() && r.unwrap()@ == old(buf)@.take(n as int) && final(buf)@ == old(buf)@.skip(n as int),
        n > old(buf)@.len() ==> r == Err::<&[u8], UnmarshalError>(UnmarshalError::Truncated)
            && final(buf)@ == old(buf)@,
{
    let s: &'a [u8] = *buf;
    if n > s.len() {
        return Err(UnmarshalError::Truncated);
    }
    let (head, tail) = s.split_at(n);
    *buf = tail;
    Ok(head)
}

/// Takes one byte off the front of `*buf`; on `Truncated`, `*buf` is as it
/// was.
pub fn unmarshal_u8(buf: &mut &[u8]) -> (r: Result<u8, UnmarshalError>)
    ensures
        old(buf)@.len() >= 1 ==> r == Ok::<u8, UnmarshalError>(old(buf)@[0]) && final(buf)@ == old(buf)@.skip(1),
        old(buf)@.len() < 1 ==> r == Err::<u8, UnmarshalError>(UnmarshalError::Truncated) && final(buf)@ == old(buf)@,
{
    let h = pop_slice(1, buf)?;
    Ok(h[0])
}

/// What the byte at the front of `input` decodes to as a flag.
pub open spec fn bool_outcome(input: Seq<u8>) -> Result<bool, UnmarshalError> {
    if input.len() < 1 {
        Err(UnmarshalError::Truncated)
    } else if input[0] == 0 {
        Ok(false)
    } else if input[0] == 1 {
        Ok(true)
    } else {
        Err(UnmarshalError::InvalidValue)
    }
}

/// Takes a flag off the front of `*buf`: 0 or 1, any other byte being
/// `InvalidValue`. On an error `*buf` is as it was.
pub fn unmarshal_bool(buf: &mut &[u8]) -> (r: Result<bool, UnmarshalError>)
    ensures
        r == bool_outcome(old(buf)@),
        final(buf)@ == if r.is_ok() {
            old(buf)@.skip(1)
        } else {
            old(buf)@
        },
{
    let s: &[u8] = *buf;
    if s.len() < 1 {
        return Err(UnmarshalError::Truncated);
    }
    let b: u8 = s[0];
    if b > 1 {
        return Err(UnmarshalError::InvalidValue);
    }
    let _ = pop_slice(1, buf);
    Ok(b == 1)
}

/// Takes a 16-bit number off the front of `*buf`; on `Truncated`, `*buf` is
/// as it was.
pub fn unmarshal_u16(buf: &mut &[u8]) -> (r: Result<u16, UnmarshalError>)
    ensures
        old(buf)@.len() >= 2 ==> r == Ok::<u16, UnmarshalError>(from_be16(old(buf)@)) && final(buf)@ == old(buf)@.skip(2),
        old(buf)@.len() < 2 ==> r == Err::<u16, UnmarshalError>(UnmarshalError::Truncated)
            && final(buf)@ == old(buf)@,
{
    let h = pop_slice(2, buf)?;
    let a: [u8; 2] = [h[0], h[1]];
    Ok(u16_from_be(&a))
}

/// Takes a 32-bit number off the front of `*buf`; on `Truncated`, `*buf` is
/// as it was.
pub fn unmarshal_u32(buf: &mut &[u8]) -> (r: Result<u32, UnmarshalError>)
    ensures
        old(buf)@.len() >= 4 ==> r == Ok::<u32, UnmarshalError>(from_be32(old(buf)@)) && final(buf)@ == old(buf)@.skip(4),
        old(buf)@.len() < 4 ==> r == Err::<u32, UnmarshalError>(UnmarshalError::Truncated)
            && final(buf)@ == old(buf)@,
{
    let h = pop_slice(4, buf)?;
    let a: [u8; 4] = [h[0], h[1], h[2], h[3]];
    Ok(u32_from_be(&a))
}

/// Takes a 64-bit number off the front of `*buf`; on `Truncated`, `*buf` is
/// as it was.
pub fn unmarshal_u64(buf: &mut &[u8]) -> (r: Result<u64, UnmarshalError>)
    ensures
        old(buf)@.len() >= 8 ==> r == Ok::<u64, UnmarshalError>(from_be64(old(buf)@)) && final(buf)@ == old(buf)@.skip(8),
        old(buf)@.len() < 8 ==> r == Err::<u64, UnmarshalError>(UnmarshalError::Truncated)
            && final(buf)@ == old(buf)@,
{
    let h = pop_slice(8, buf)?;
    let a: [u8; 8] = [h[0], h[1], h[2], h[3], h[4], h[5], h[6], h[7]];
    Ok(u64_from_be(&a))
}

/// How many bytes a byte field at the front of `input` takes, prefix
/// included, or `Truncated` where the prefix or the declared payload is cut.
pub open spec fn sized_outcome(input: Seq<u8>) -> Result<int, UnmarshalError> {
    if input.len() < 2 || input.len() < 2 + from_be16(input) {
        Err(UnmarshalError::Truncated)
    } else {
        Ok(2 + from_be16(input))
    }
}

/// The payload of the byte field at the front of `input`.
pub open spec fn sized_payload(input: Seq<u8>) -> Seq<u8> {
    input.subrange(2, 2 + from_be16(input))
}

/// Reads a byte field: the payload borrows from the input, and `*buf`
/// moves past it. On `Truncated`, `*buf` is as it was.
pub fn unmarshal_sized<'a>(buf: &mut &'a [u8]) -> (r: Result<&'a [u8], UnmarshalError>)
    ensures
        match sized_outcome(old(buf)@) {
            Ok(n) => r.is_ok() && r.unwrap()@ == sized_payload(old(buf)@) && final(buf)@ == old(buf)@.skip(n),
            Err(e) => r == Err::<&[u8], UnmarshalError>(e) && final(buf)@ == old(buf)@,
        },
{
    let whole: &'a [u8] = *buf;
    let n = unmarshal_u16(buf)?;
    match pop_slice(n as usize, buf) {
        Ok(payload) => {
            assert(payload@ =~= sized_payload(whole@));
            assert(buf@ =~= whole@.skip(2 + n));
            Ok(payload)
        },
        Err(e) => {
            *buf = whole;
            Err(e)
        },
    }
}

/// A byte field of at most 65535 bytes is read back whole from any input
/// that starts with its encoding.
pub proof fn lemma_sized_round_trip(data: Seq<u8>, rest: Seq<u8>)
    requires
        data.len() <= 0xffff,
    ensures
        sized(data).len() == 2 + data.len(),
        from_be16(sized(data) + rest) == data.len(),
        sized_outcome(sized(data) + rest) == Ok::<int, UnmarshalError>(2 + data.len() as int),
        sized_payload(sized(data) + rest) == data,
{
    let n = data.len() as u16;
    lemma_join_of_split(n, 0, 0);
    let input = sized(data) + rest;
    assert(input[0] == be16(n)[0] && input[1] == be16(n)[1]);
    assert(sized_payload(input) =~= data);
}

/// Writing `a` and then `b` right behind it is writing `a + b`.
pub proof fn lemma_splice_append(buf: Seq<u8>, at: int, a: Seq<u8>, b: Seq<u8>)
    requires
        0 <= at,
        at + a.len() + b.len() <= buf.len(),
    ensures
        splice(splice(buf, at, a), at + a.len(), b) == splice(buf, at, a + b),
{
    assert(splice(splice(buf, at, a), at + a.len(), b) =~= splice(buf, at, a + b));
}

} // verus!
