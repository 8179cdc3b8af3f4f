//! Structured records: clock telemetry, authorization blocks and register
//! selections, each a fixed sequence of fields on the wire.
use vstd::prelude::*;
use crate::error::{MarshalError, UnmarshalError};
use crate::marshal::{
    be16, be32, be64, bool_byte, from_be16, from_be32, from_be64, lemma_join_of_split,
    lemma_sized_round_trip, lemma_splice_append, Marshal, marshal_bool, marshal_outcome,
    marshal_sized, marshal_u32, marshal_u64, marshal_u8, pop_slice, sized, sized_outcome,
    sized_payload, splice, Unmarshal, unmarshal_bool, unmarshal_sized, unmarshal_u32,
    unmarshal_u64, unmarshal_u8, write_bytes,
};
use crate::types::{lemma_alg_id_round_trip, Alg, Handle, Session};

verus! {

/// The device's clock and its reset counters.
#[derive(Clone, Copy, Debug, PartialEq, Eq, Structural)]
pub struct ClockInfo {
    pub clock: u64,
    pub reset_count: u32,
    pub restart_count: u32,
    pub safe: bool,
}

/// The device's uptime together with its clock record.
#[derive(Clone, Copy, Debug, PartialEq, Eq, Structural)]
pub struct TimeInfo {
    pub time: u64,
    pub clock_info: ClockInfo,
}

/// Bytes of an encoded clock record.
pub const CLOCK_INFO_SIZE: usize = 17;

/// Bytes of an encoded time record.
pub const TIME_INFO_SIZE: usize = 25;

impl ClockInfo {
    /// The seventeen bytes of the record: clock, reset count, restart
    /// count, safe flag, with no padding.
    pub open spec fn fixed(&self) -> Seq<u8> {
        be64(self.clock) + be32(self.reset_count) + be32(self.restart_count) + bool_byte(self.safe)
    }

    /// The all-zero record.
    pub fn new() -> (r: ClockInfo)
        ensures
            r == (ClockInfo { clock: 0, reset_count: 0, restart_count: 0, safe: false }),
    {
        ClockInfo { clock: 0, reset_count: 0, restart_count: 0, safe: false }
    }

    /// Fills `arr` with the record's fixed encoding.
    pub fn marshal_fixed(&self, arr: &mut [u8; CLOCK_INFO_SIZE])
        ensures
            final(arr)@ == self.fixed(),
    {
        let buf: &mut [u8] = arr;
        let ghost before = buf@;
        let mut pos: usize = 0;
        let ghost w1 = be64(self.clock);
        let ghost w2 = w1 + be32(self.reset_count);
        let ghost w3 = w2 + be32(self.restart_count);
        let _ = marshal_u64(self.clock, buf, &mut pos);
        let _ = marshal_u32(self.reset_count, buf, &mut pos);
        proof {
            lemma_splice_append(before, 0, w1, be32(self.reset_count));
        }
        let _ = marshal_u32(self.restart_count, buf, &mut pos);
        proof {
            lemma_splice_append(before, 0, w2, be32(self.restart_count));
        }
        let _ = marshal_bool(self.safe, buf, &mut pos);
        proof {
            lemma_splice_append(before, 0, w3, bool_byte(self.safe));
        }
        assert(buf@ =~= self.fixed());
    }
}

impl Marshal for ClockInfo {
    open spec fn wire(&self) -> Seq<u8> {
        self.fixed()
    }

    open spec fn encodable(&self) -> bool {
        true
    }

    fn marshal(&self, buf: &mut [u8], pos: &mut usize) -> (r: Result<(), MarshalError>) {
        let mut arr: [u8; CLOCK_INFO_SIZE] = [0u8; CLOCK_INFO_SIZE];
        self.marshal_fixed(&mut arr);
        write_bytes(buf, pos, arr.as_slice())
    }
}

impl<'a> Unmarshal<'a> for ClockInfo {
    open spec fn outcome(input: Seq<u8>) -> Result<int, UnmarshalError> {
        if input.len() < 17 {
            Err(UnmarshalError::Truncated)
        } else if input[16] > 1 {
            Err(UnmarshalError::InvalidValue)
        } else {
            Ok(17)
        }
    }

    open spec fn decoded_from(&self, input: Seq<u8>) -> bool {
        &&& self.clock == from_be64(input)
        &&& self.reset_count == from_be32(input.skip(8))
        &&& self.restart_count == from_be32(input.skip(12))
        &&& self.safe == (input[16] == 1)
    }

    fn unmarshal(&mut self, buf: &mut &'a [u8]) -> (r: Result<(), UnmarshalError>) {
        let ghost input = buf@;
        self.clock = unmarshal_u64(buf)?;
        self.reset_count = unmarshal_u32(buf)?;
        self.restart_count = unmarshal_u32(buf)?;
        self.safe = unmarshal_bool(buf)?;
        assert(buf@ =~= input.skip(17));
        Ok(())
    }
}

/// Decoding an encoded clock record succeeds on any input that starts with
/// the encoding, consumes exactly the encoding, and yields the record.
pub proof fn lemma_clock_info_round_trip(x: ClockInfo, y: ClockInfo, rest: Seq<u8>)
    ensures
        x.wire().len() == 17,
        ClockInfo::outcome(x.wire() + rest) == Ok::<int, UnmarshalError>(17),
        y.decoded_from(x.wire() + rest) ==> y == x,
{
    let input = x.wire() + rest;
    lemma_join_of_split(0, x.reset_count, x.clock);
    lemma_join_of_split(0, x.restart_count, 0);
    assert(input.skip(8).subrange(0, 4) =~= be32(x.reset_count));
    assert(input.skip(12).subrange(0, 4) =~= be32(x.restart_count));
    assert(input.subrange(0, 8) =~= be64(x.clock));
    assert(input[16] == bool_byte(x.safe)[0]);
}

impl TimeInfo {
    /// The twenty-five bytes of the record: the time, then the clock record.
    pub open spec fn fixed(&self) -> Seq<u8> {
        be64(self.time) + self.clock_info.fixed()
    }

    /// The all-zero record.
    pub fn new() -> (r: TimeInfo)
        ensures
            r.time == 0,
            r.clock_info == (ClockInfo { clock: 0, reset_count: 0, restart_count: 0, safe: false }),
    {
        TimeInfo { time: 0, clock_info: ClockInfo::new() }
    }

    /// Fills `arr` with the record's fixed encoding.
    pub fn marshal_fixed(&self, arr: &mut [u8; TIME_INFO_SIZE])
        ensures
            final(arr)@ == self.fixed(),
    {
        let buf: &mut [u8] = arr;
        let ghost before = buf@;
        let mut pos: usize = 0;
        let _ = marshal_u64(self.time, buf, &mut pos);
        let _ = self.clock_info.marshal(buf, &mut pos);
        proof {
            lemma_splice_append(before, 0, be64(self.time), self.clock_info.fixed());
        }
        assert(buf@ =~= self.fixed());
    }
}

impl Marshal for TimeInfo {
    open spec fn wire(&self) -> Seq<u8> {
        self.fixed()
    }

    open spec fn encodable(&self) -> bool {
        true
    }

    fn marshal(&self, buf: &mut [u8], pos: &mut usize) -> (r: Result<(), MarshalError>) {
        let mut arr: [u8; TIME_INFO_SIZE] = [0u8; TIME_INFO_SIZE];
        self.marshal_fixed(&mut arr);
        write_bytes(buf, pos, arr.as_slice())
    }
}

impl<'a> Unmarshal<'a> for TimeInfo {
    open spec fn outcome(input: Seq<u8>) -> Result<int, UnmarshalError> {
        if input.len() < 25 {
            Err(UnmarshalError::Truncated)
        } else if input[24] > 1 {
            Err(UnmarshalError::InvalidValue)
        } else {
            Ok(25)
        }
    }

    open spec fn decoded_from(&self, input: Seq<u8>) -> bool {
        &&& self.time == from_be64(input)
        &&& self.clock_info.decoded_from(input.skip(8))
    }

    fn unmarshal(&mut self, buf: &mut &'a [u8]) -> (r: Result<(), UnmarshalError>) {
        let ghost input = buf@;
        self.time = unmarshal_u64(buf)?;
        self.clock_info.unmarshal(buf)?;
        assert(buf@ =~= input.skip(25));
        Ok(())
    }
}

/// Decoding an encoded time record succeeds on any input that starts with
/// the encoding, consumes exactly the encoding, and yields the record.
pub proof fn lemma_time_info_round_trip(x: TimeInfo, y: TimeInfo, rest: Seq<u8>)
    ensures
        x.wire().len() == 25,
        TimeInfo::outcome(x.wire() + rest) == Ok::<int, UnmarshalError>(25),
        y.decoded_from(x.wire() + rest) ==> y == x,
{
    let input = x.wire() + rest;
    lemma_join_of_split(0, 0, x.time);
    assert(input.subrange(0, 8) =~= be64(x.time));
    assert(input.skip(8) =~= x.clock_info.wire() + rest);
    lemma_clock_info_round_trip(x.clock_info, y.clock_info, rest);
    assert(input[24] == input.skip(8)[16]);
}

/// One entry of a command's authorization area. The nonce and the
/// authorization value are opaque bytes that the caller owns.
#[derive(Clone, Copy, Debug)]
pub struct AuthCommand<'a> {
    pub session_handle: Handle,
    pub nonce: &'a [u8],
    pub session_attributes: Session,
    pub hmac: &'a [u8],
}

impl<'a> Marshal for AuthCommand<'a> {
    /// Handle, nonce field, attribute byte, authorization field.
    open spec fn wire(&self) -> Seq<u8> {
        be32(self.session_handle.0) + sized(self.nonce@) + seq![self.session_attributes.0] + sized(
            self.hmac@,
        )
    }

    open spec fn encodable(&self) -> bool {
        self.nonce@.len() <= 0xffff && self.hmac@.len() <= 0xffff
    }

    fn marshal(&self, buf: &mut [u8], pos: &mut usize) -> (r: Result<(), MarshalError>) {
        if self.nonce.len() > 0xffff || self.hmac.len() > 0xffff {
            return Err(MarshalError::FieldTooLong);
        }
        let start: usize = *pos;
        let need: usize = 9 + self.nonce.len() + self.hmac.len();
        if start > buf.len() || need > buf.len() - start {
            return Err(MarshalError::BufferTooSmall);
        }
        let ghost before = buf@;
        let ghost at = start as int;
        let ghost w1 = be32(self.session_handle.0);
        let ghost w2 = w1 + sized(self.nonce@);
        let ghost w3 = w2 + seq![self.session_attributes.0];
        let _ = marshal_u32(self.session_handle.0, buf, pos);
        let _ = marshal_sized(self.nonce, buf, pos);
        proof {
            lemma_splice_append(before, at, w1, sized(self.nonce@));
        }
        let _ = marshal_u8(self.session_attributes.0, buf, pos);
        proof {
            lemma_splice_append(before, at, w2, seq![self.session_attributes.0]);
        }
        let _ = marshal_sized(self.hmac, buf, pos);
        proof {
            lemma_splice_append(before, at, w3, sized(self.hmac@));
        }
        Ok(())
    }
}

/// The device's reply for one session. The nonce and the authorization
/// value borrow from the response they were parsed from.
#[derive(Clone, Copy, Debug)]
pub struct AuthResponse<'a> {
    pub nonce: &'a [u8],
    pub session_attributes: Session,
    pub hmac: &'a [u8],
}

impl<'a> AuthResponse<'a> {
    /// The reply with empty fields and no attribute set.
    pub fn new() -> (r: AuthResponse<'a>)
        ensures
            r.nonce@.len() == 0,
            r.hmac@.len() == 0,
            r.session_attributes == Session(0),
    {
        let e: &'a [u8] = &[];
        AuthResponse { nonce: e, session_attributes: Session(0), hmac: e }
    }
}

impl<'a> Unmarshal<'a> for AuthResponse<'a> {
    open spec fn outcome(input: Seq<u8>) -> Result<int, UnmarshalError> {
        match sized_outcome(input) {
            Err(e) => Err(e),
            Ok(n) => if input.len() < n + 1 {
                Err(UnmarshalError::Truncated)
            } else {
                match sized_outcome(input.skip(n + 1)) {
                    Err(e) => Err(e),
                    Ok(m) => Ok(n + 1 + m),
                }
            },
        }
    }

    /// Nonce field, attribute byte, authorization field, in that order.
    open spec fn decoded_from(&self, input: Seq<u8>) -> bool {
        let n = 2 + from_be16(input);
        &&& self.nonce@ == sized_payload(input)
        &&& self.session_attributes.0 == input[n]
        &&& self.hmac@ == sized_payload(input.skip(n + 1))
    }

    fn unmarshal(&mut self, buf: &mut &'a [u8]) -> (r: Result<(), UnmarshalError>) {
        let ghost input = buf@;
        self.nonce = unmarshal_sized(buf)?;
        let ghost n = 2 + from_be16(input);
        self.session_attributes = Session(unmarshal_u8(buf)?);
        assert(buf@ =~= input.skip(n + 1));
        self.hmac = unmarshal_sized(buf)?;
        assert(buf@ =~= input.skip(n + 1 + 2 + from_be16(input.skip(n + 1))));
        Ok(())
    }
}

/// A reply that carries the nonce, attributes and authorization value of a
/// command entry decodes from what follows the handle in that entry's
/// encoding, consumes exactly that, and yields those three fields.
#[verifier::rlimit(40)]
pub proof fn lemma_auth_area_round_trip(x: AuthCommand, y: AuthResponse, rest: Seq<u8>)
    requires
        x.encodable(),
    ensures
        x.wire().len() == 9 + x.nonce@.len() + x.hmac@.len(),
        AuthResponse::outcome(x.wire().skip(4) + rest) == Ok::<int, UnmarshalError>(
            x.wire().len() - 4,
        ),
        y.decoded_from(x.wire().skip(4) + rest) ==> y.nonce@ == x.nonce@ && y.session_attributes
            == x.session_attributes && y.hmac@ == x.hmac@,
{
    let input = x.wire().skip(4) + rest;
    let n: int = 2 + x.nonce@.len() as int;
    lemma_sized_round_trip(x.nonce@, seq![x.session_attributes.0] + sized(x.hmac@) + rest);
    assert(input =~= sized(x.nonce@) + (seq![x.session_attributes.0] + sized(x.hmac@) + rest));
    assert(input.skip(n + 1) =~= sized(x.hmac@) + rest);
    lemma_sized_round_trip(x.hmac@, rest);
}

/// Bytes of bitmap in an encoded selection.
pub const SIZE_OF_SELECT: usize = 3;

/// Registers in the supported profile.
pub const NUM_PCRS: usize = 24;

/// One flag per register index: `true` where the register is selected.
pub type PcrSelect = [bool; NUM_PCRS];

/// The selection in which every flag is `flag`.
pub fn uniform_select(flag: bool) -> (r: PcrSelect)
    ensures
        forall|i: int| 0 <= i < 24 ==> r@[i] == flag,
{
    let f = flag;
    [f, f, f, f, f, f, f, f, f, f, f, f, f, f, f, f, f, f, f, f, f, f, f, f]
}

/// Whether bit `k` of `byte` is set, bit 0 being the lowest.
pub open spec fn bit_is_set(byte: u8, k: u8) -> bool {
    byte & (1u8 << k) != 0
}

/// Bit `k` alone where `flag` holds, zero where it does not.
pub open spec fn flag_mask(flag: bool, k: u8) -> u8 {
    if flag {
        1u8 << k
    } else {
        0u8
    }
}

/// The byte whose bit `k` stands for flag `base + k`.
pub open spec fn pack8(flags: Seq<bool>, base: int) -> u8 {
    flag_mask(flags[base], 0) | flag_mask(flags[base + 1], 1) | flag_mask(flags[base + 2], 2)
        | flag_mask(flags[base + 3], 3) | flag_mask(flags[base + 4], 4) | flag_mask(
        flags[base + 5],
        5,
    ) | flag_mask(flags[base + 6], 6) | flag_mask(flags[base + 7], 7)
}

/// A selection on the wire: the bitmap's size, then three bitmap bytes.
pub open spec fn select_wire(flags: Seq<bool>) -> Seq<u8> {
    seq![3u8, pack8(flags, 0), pack8(flags, 8), pack8(flags, 16)]
}

/// Whether a bitmap selects register `i`: bit `i mod 8` of byte `i / 8`.
pub open spec fn bitmap_bit(bitmap: Seq<u8>, i: int) -> bool {
    bit_is_set(bitmap[i / 8], (i % 8) as u8)
}

/// The lowest register index at or above `from` that `bitmap` selects.
pub open spec fn first_selected(bitmap: Seq<u8>, from: int) -> Option<int>
    decreases 8 * bitmap.len() - from,
{
    if from < 0 || from >= 8 * bitmap.len() {
        None
    } else if bitmap_bit(bitmap, from) {
        Some(from)
    } else {
        first_selected(bitmap, from + 1)
    }
}

/// The bitmap of the selection at the front of `input`.
pub open spec fn select_bitmap(input: Seq<u8>) -> Seq<u8> {
    input.subrange(1, 1 + input[0])
}

/// Bit `k` of a packed byte is flag `base + k`.
pub proof fn lemma_pack8_bit(flags: Seq<bool>, base: int, k: u8)
    requires
        k < 8,
    ensures
        bit_is_set(pack8(flags, base), k) == flags[base + k],
{
    let m0 = flag_mask(flags[base], 0);
    let m1 = flag_mask(flags[base + 1], 1);
    let m2 = flag_mask(flags[base + 2], 2);
    let m3 = flag_mask(flags[base + 3], 3);
    let m4 = flag_mask(flags[base + 4], 4);
    let m5 = flag_mask(flags[base + 5], 5);
    let m6 = flag_mask(flags[base + 6], 6);
    let m7 = flag_mask(flags[base + 7], 7);
    let b = m0 | m1 | m2 | m3 | m4 | m5 | m6 | m7;
    assert((m0 == 0 || m0 == 1u8 << 0u8) && (m1 == 0 || m1 == 1u8 << 1u8) && (m2 == 0 || m2 == 1u8
        << 2u8) && (m3 == 0 || m3 == 1u8 << 3u8) && (m4 == 0 || m4 == 1u8 << 4u8) && (m5 == 0 || m5
        == 1u8 << 5u8) && (m6 == 0 || m6 == 1u8 << 6u8) && (m7 == 0 || m7 == 1u8 << 7u8) && b == m0
        | m1 | m2 | m3 | m4 | m5 | m6 | m7 ==> (b & (1u8 << 0u8) != 0 <==> m0 != 0) && (b & (1u8
        << 1u8) != 0 <==> m1 != 0) && (b & (1u8 << 2u8) != 0 <==> m2 != 0) && (b & (1u8 << 3u8) != 0
        <==> m3 != 0) && (b & (1u8 << 4u8) != 0 <==> m4 != 0) && (b & (1u8 << 5u8) != 0 <==> m5
        != 0) && (b & (1u8 << 6u8) != 0 <==> m6 != 0) && (b & (1u8 << 7u8) != 0 <==> m7 != 0)
        && 1u8 << 0u8 != 0 && 1u8 << 1u8 != 0 && 1u8 << 2u8 != 0 && 1u8 << 3u8 != 0 && 1u8 << 4u8
        != 0 && 1u8 << 5u8 != 0 && 1u8 << 6u8 != 0 && 1u8 << 7u8 != 0) by (bit_vector);
}

/// Two bytes with the same eight bits are the same byte.
pub proof fn lemma_byte_by_bits(a: u8, b: u8)
    requires
        forall|k: u8| k < 8 ==> bit_is_set(a, k) == bit_is_set(b, k),
    ensures
        a == b,
{
    assert(bit_is_set(a, 0) == bit_is_set(b, 0));
    assert(bit_is_set(a, 1) == bit_is_set(b, 1));
    assert(bit_is_set(a, 2) == bit_is_set(b, 2));
    assert(bit_is_set(a, 3) == bit_is_set(b, 3));
    assert(bit_is_set(a, 4) == bit_is_set(b, 4));
    assert(bit_is_set(a, 5) == bit_is_set(b, 5));
    assert(bit_is_set(a, 6) == bit_is_set(b, 6));
    assert(bit_is_set(a, 7) == bit_is_set(b, 7));
    assert(((a & (1u8 << 0u8) != 0) == (b & (1u8 << 0u8) != 0)) && ((a & (1u8 << 1u8) != 0) == (b
        & (1u8 << 1u8) != 0)) && ((a & (1u8 << 2u8) != 0) == (b & (1u8 << 2u8) != 0)) && ((a & (1u8
        << 3u8) != 0) == (b & (1u8 << 3u8) != 0)) && ((a & (1u8 << 4u8) != 0) == (b & (1u8 << 4u8)
        != 0)) && ((a & (1u8 << 5u8) != 0) == (b & (1u8 << 5u8) != 0)) && ((a & (1u8 << 6u8) != 0)
        == (b & (1u8 << 6u8) != 0)) && ((a & (1u8 << 7u8) != 0) == (b & (1u8 << 7u8) != 0)) ==> a
        == b) by (bit_vector);
}

/// Packs the eight flags that start at `base` into one byte, flag `base + k`
/// into bit `k`.
pub fn pack_flags(flags: &PcrSelect, base: usize) -> (r: u8)
    requires
        base + 8 <= 24,
    ensures
        r == pack8(flags@, base as int),
{
    let mut acc: u8 = 0;
    let mut k: u8 = 0;
    assert(forall|t: u8| t < 8 ==> !bit_is_set(0u8, t)) by {
        assert(forall|t: u8| t < 8 ==> 0u8 & (1u8 << t) == 0) by (bit_vector);
    }
    while k < 8
        invariant
            k <= 8,
            base + 8 <= 24,
            forall|t: u8| t < 8 ==> bit_is_set(acc, t) == (t < k && flags@[base + t]),
        decreases 8 - k,
    {
        let ghost prev = acc;
        if flags[base + k as usize] {
            acc |= 1u8 << k;
            assert(forall|t: u8|
                t < 8 ==> bit_is_set(acc, t) == (t == k || bit_is_set(prev, t))) by {
                assert(forall|x: u8, j: u8, t: u8|
                    j < 8 && t < 8 ==> (((x | (1u8 << j)) & (1u8 << t) != 0) <==> (t == j || x & (
                    1u8 << t) != 0))) by (bit_vector);
            }
        }
        k += 1;
    }
    proof {
        assert forall|t: u8| t < 8 implies bit_is_set(acc, t) == bit_is_set(
            pack8(flags@, base as int),
            t,
        ) by {
            lemma_pack8_bit(flags@, base as int, t);
        }
        lemma_byte_by_bits(acc, pack8(flags@, base as int));
    }
    acc
}

impl Marshal for PcrSelect {
    open spec fn wire(&self) -> Seq<u8> {
        select_wire(self@)
    }

    open spec fn encodable(&self) -> bool {
        true
    }

    fn marshal(&self, buf: &mut [u8], pos: &mut usize) -> (r: Result<(), MarshalError>) {
        let sel: [u8; 4] = [3u8, pack_flags(self, 0), pack_flags(self, 8), pack_flags(self, 16)];
        assert(sel@ =~= select_wire(self@));
        write_bytes(buf, pos, sel.as_slice())
    }
}

/// Where the bitmap selects `p` and nothing from `from` up to `p`, the
/// lowest selected index from `from` on is `p`.
pub proof fn lemma_first_selected_is(bitmap: Seq<u8>, from: int, p: int)
    requires
        0 <= from <= p < 8 * bitmap.len(),
        bitmap_bit(bitmap, p),
        forall|i: int| from <= i < p ==> !bitmap_bit(bitmap, i),
    ensures
        first_selected(bitmap, from) == Some(p),
    decreases p - from,
{
    if from < p {
        lemma_first_selected_is(bitmap, from + 1, p);
    }
}

/// Where the bitmap selects nothing from `from` on, there is no lowest
/// selected index.
pub proof fn lemma_first_selected_none(bitmap: Seq<u8>, from: int)
    requires
        0 <= from,
        forall|i: int| from <= i < 8 * bitmap.len() ==> !bitmap_bit(bitmap, i),
    ensures
        first_selected(bitmap, from) == None::<int>,
    decreases 8 * bitmap.len() - from,
{
    if from < 8 * bitmap.len() {
        lemma_first_selected_none(bitmap, from + 1);
    }
}

impl<'a> Unmarshal<'a> for PcrSelect {
    /// `Truncated` where the size byte or the bitmap it declares is cut;
    /// `PcrTooLarge` with the lowest selected index of 24 or more, where
    /// there is one; else the size byte and the bitmap are consumed.
    open spec fn outcome(input: Seq<u8>) -> Result<int, UnmarshalError> {
        if input.len() < 1 || input.len() < 1 + input[0] {
            Err(UnmarshalError::Truncated)
        } else {
            match first_selected(select_bitmap(input), 24) {
                Some(i) => Err(UnmarshalError::PcrTooLarge(i as usize)),
                None => Ok(1 + input[0]),
            }
        }
    }

    /// Flag `i` holds exactly where the bitmap reaches `i` and selects it.
    open spec fn decoded_from(&self, input: Seq<u8>) -> bool {
        forall|i: int|
            0 <= i < 24 ==> self@[i] == (i < 8 * input[0] && bitmap_bit(select_bitmap(input), i))
    }

    fn unmarshal(&mut self, buf: &mut &'a [u8]) -> (r: Result<(), UnmarshalError>) {
        let ghost input = buf@;
        let size: usize = unmarshal_u8(buf)? as usize;
        let sel = pop_slice(size, buf)?;
        assert(sel@ =~= select_bitmap(input));
        assert(buf@ =~= input.skip(1 + size));
        let mut out: [bool; 24] = uniform_select(false);
        let mut byte_idx: usize = 0;
        while byte_idx < size
            invariant
                byte_idx <= size == sel@.len(),
                size <= 255,
                input == old(buf)@,
                input.len() >= 1 + input[0],
                sel@ == select_bitmap(input),
                forall|i: int|
                    0 <= i < 24 ==> #[trigger] out@[i] == (i < 8 * byte_idx && bitmap_bit(sel@, i)),
                forall|i: int| 24 <= i < 8 * byte_idx ==> !#[trigger] bitmap_bit(sel@, i),
            decreases size - byte_idx,
        {
            let byte: u8 = sel[byte_idx];
            let mut bit_idx: u8 = 0;
            while bit_idx < 8
                invariant
                    bit_idx <= 8,
                    byte_idx < size == sel@.len(),
                    size <= 255,
                    input == old(buf)@,
                    input.len() >= 1 + input[0],
                    sel@ == select_bitmap(input),
                    byte == sel@[byte_idx as int],
                    forall|i: int|
                        0 <= i < 24 ==> #[trigger] out@[i] == (i < 8 * byte_idx + bit_idx
                            && bitmap_bit(sel@, i)),
                    forall|i: int|
                        24 <= i < 8 * byte_idx + bit_idx ==> !#[trigger] bitmap_bit(sel@, i),
                decreases 8 - bit_idx,
            {
                let pcr_num: usize = 8 * byte_idx + bit_idx as usize;
                assert(bitmap_bit(sel@, pcr_num as int) == bit_is_set(byte, bit_idx));
                if byte & (1u8 << bit_idx) != 0 {
                    if pcr_num >= NUM_PCRS {
                        proof {
                            lemma_first_selected_is(sel@, 24, pcr_num as int);
                        }
                        return Err(UnmarshalError::PcrTooLarge(pcr_num));
                    }
                    out[pcr_num] = true;
                }
                bit_idx += 1;
            }
            byte_idx += 1;
        }
        proof {
            lemma_first_selected_none(sel@, 24);
        }
        *self = out;
        Ok(())
    }
}

/// Decoding an encoded selection succeeds on any input that starts with the
/// four bytes of the encoding, consumes exactly those, and yields the same
/// set of registers.
pub proof fn lemma_pcr_select_round_trip(x: PcrSelect, y: PcrSelect, rest: Seq<u8>)
    ensures
        x.wire().len() == 4,
        PcrSelect::outcome(x.wire() + rest) == Ok::<int, UnmarshalError>(4),
        y.decoded_from(x.wire() + rest) ==> y == x,
{
    let input = x.wire() + rest;
    let bitmap = select_bitmap(input);
    assert(input[0] == 3);
    assert(bitmap =~= seq![pack8(x@, 0), pack8(x@, 8), pack8(x@, 16)]);
    assert forall|i: int| 0 <= i < 24 implies bitmap_bit(bitmap, i) == x@[i] by {
        lemma_pack8_bit(x@, 8 * (i / 8), (i % 8) as u8);
    }
    if y.decoded_from(input) {
        assert(y@ =~= x@);
    }
}

/// A bitmap that selects a register of index 24 or more never decodes: the
/// error names the lowest such index, which the bitmap does select.
pub proof fn lemma_pcr_select_excess_rejected(input: Seq<u8>, p: int)
    requires
        input.len() >= 1 + input[0],
        24 <= p < 8 * input[0],
        bitmap_bit(select_bitmap(input), p),
    ensures
        match PcrSelect::outcome(input) {
            Err(UnmarshalError::PcrTooLarge(i)) => 24 <= i <= p && bitmap_bit(
                select_bitmap(input),
                i as int,
            ),
            _ => false,
        },
{
    lemma_first_selected_bounds(select_bitmap(input), 24, p);
}

/// The lowest selected index from `from` on lies between `from` and any
/// selected index `p` at or above `from`, and is itself selected.
pub proof fn lemma_first_selected_bounds(bitmap: Seq<u8>, from: int, p: int)
    requires
        0 <= from <= p < 8 * bitmap.len(),
        bitmap_bit(bitmap, p),
    ensures
        first_selected(bitmap, from).is_some(),
        from <= first_selected(bitmap, from).unwrap() <= p,
        bitmap_bit(bitmap, first_selected(bitmap, from).unwrap()),
    decreases p - from,
{
    if !bitmap_bit(bitmap, from) {
        lemma_first_selected_bounds(bitmap, from + 1, p);
    }
}

/// The registers selected in the bank of one hash algorithm.
#[derive(Clone, Copy, Debug, PartialEq, Eq)]
pub struct PcrSelection {
    pub hash: Alg,
    pub select: PcrSelect,
}

impl PcrSelection {
    /// The selection of no register in the bank of `hash`.
    pub fn none(hash: Alg) -> (r: PcrSelection)
        ensures
            r.hash == hash,
            forall|i: int| 0 <= i < 24 ==> !r.select@[i],
    {
        PcrSelection { hash, select: uniform_select(false) }
    }

    /// The selection of every register in the bank of `hash`.
    pub fn all(hash: Alg) -> (r: PcrSelection)
        ensures
            r.hash == hash,
            forall|i: int| 0 <= i < 24 ==> r.select@[i],
    {
        PcrSelection { hash, select: uniform_select(true) }
    }
}

impl Marshal for PcrSelection {
    /// The algorithm's identifier, then the selection.
    open spec fn wire(&self) -> Seq<u8> {
        be16(self.hash.spec_id()) + select_wire(self.select@)
    }

    open spec fn encodable(&self) -> bool {
        true
    }

    fn marshal(&self, buf: &mut [u8], pos: &mut usize) -> (r: Result<(), MarshalError>) {
        let start: usize = *pos;
        if start > buf.len() || 6 > buf.len() - start {
            return Err(MarshalError::BufferTooSmall);
        }
        let ghost before = buf@;
        let _ = self.hash.marshal(buf, pos);
        let _ = self.select.marshal(buf, pos);
        proof {
            lemma_splice_append(
                before,
                start as int,
                be16(self.hash.spec_id()),
                select_wire(self.select@),
            );
        }
        Ok(())
    }
}

impl<'a> Unmarshal<'a> for PcrSelection {
    open spec fn outcome(input: Seq<u8>) -> Result<int, UnmarshalError> {
        match Alg::outcome(input) {
            Err(e) => Err(e),
            Ok(_) => match PcrSelect::outcome(input.skip(2)) {
                Err(e) => Err(e),
                Ok(n) => Ok(2 + n),
            },
        }
    }

    open spec fn decoded_from(&self, input: Seq<u8>) -> bool {
        &&& Alg::outcome(input) == Ok::<Alg, UnmarshalError>(self.hash)
        &&& self.select.decoded_from(input.skip(2))
    }

    fn unmarshal(&mut self, buf: &mut &'a [u8]) -> (r: Result<(), UnmarshalError>) {
        let ghost input = buf@;
        self.hash = Alg::unmarshal(buf)?;
        self.select.unmarshal(buf)?;
        assert(buf@ =~= input.skip(2 + PcrSelect::outcome(input.skip(2)).unwrap()));
        Ok(())
    }
}

/// Decoding an encoded bank selection succeeds on any input that starts
/// with the six bytes of the encoding, consumes exactly those, and yields
/// the same algorithm and the same set of registers.
#[verifier::rlimit(40)]
pub proof fn lemma_pcr_selection_round_trip(x: PcrSelection, y: PcrSelection, rest: Seq<u8>)
    ensures
        x.wire().len() == 6,
        PcrSelection::outcome(x.wire() + rest) == Ok::<int, UnmarshalError>(6),
        y.decoded_from(x.wire() + rest) ==> y == x,
{
    let input = x.wire() + rest;
    let id = x.hash.spec_id();
    assert(be16(id).len() == 2);
    assert(from_be16(input) == id) by {
        lemma_join_of_split(id, 0, 0);
        assert(input[0] == be16(id)[0]);
        assert(input[1] == be16(id)[1]);
    }
    lemma_alg_id_round_trip(x.hash);
    assert(Alg::outcome(input) == Ok::<Alg, UnmarshalError>(x.hash));
    assert(input.skip(2) == x.select.wire() + rest) by {
        assert(input.skip(2) =~= x.select.wire() + rest);
    }
    lemma_pcr_select_round_trip(x.select, y.select, rest);
}

/// The encodings of a list of bank selections, one after the other in the
/// order of the list, with nothing between them.
pub open spec fn selections_wire(list: Seq<PcrSelection>) -> Seq<u8>
    decreases list.len(),
{
    if list.len() == 0 {
        Seq::<u8>::empty()
    } else {
        selections_wire(list.drop_last()) + list.last().wire()
    }
}

/// A list of `n` bank selections takes `6 * n` bytes.
pub proof fn lemma_selections_wire_len(list: Seq<PcrSelection>)
    ensures
        selections_wire(list).len() == 6 * list.len(),
    decreases list.len(),
{
    if list.len() > 0 {
        lemma_selections_wire_len(list.drop_last());
    }
}

/// Writes every selection of `list` in order, or fails and changes nothing
/// where the whole list does not fit.
pub fn marshal_selections(list: &[PcrSelection], buf: &mut [u8], pos: &mut usize) -> (r: Result<
    (),
    MarshalError,
>)
    ensures
        marshal_outcome(
            true,
            selections_wire(list@),
            old(buf)@,
            *old(pos),
            final(buf)@,
            *final(pos),
            r,
        ),
{
    let start: usize = *pos;
    let n: usize = list.len();
    proof {
        lemma_selections_wire_len(list@);
    }
    if start > buf.len() || n > (buf.len() - start) / 6 {
        return Err(MarshalError::BufferTooSmall);
    }
    let ghost before = buf@;
    let mut i: usize = 0;
    assert(list@.take(0) =~= Seq::<PcrSelection>::empty());
    assert(buf@ =~= splice(before, start as int, selections_wire(list@.take(0))));
    while i < n
        invariant
            i <= n == list@.len(),
            start + 6 * n <= before.len() <= usize::MAX,
            buf@.len() == before.len(),
            *pos == start + 6 * i,
            selections_wire(list@.take(i as int)).len() == 6 * i,
            buf@ == splice(before, start as int, selections_wire(list@.take(i as int))),
        decreases n - i,
    {
        let ghost prev = buf@;
        let ghost done = selections_wire(list@.take(i as int));
        let _ = list[i].marshal(buf, pos);
        proof {
            assert(list@.take(i + 1).drop_last() =~= list@.take(i as int));
            assert(list@.take(i + 1).last() == list@[i as int]);
            lemma_selections_wire_len(list@.take(i + 1));
            lemma_splice_append(before, start as int, done, list@[i as int].wire());
        }
        i += 1;
    }
    assert(list@.take(n as int) =~= list@);
    Ok(())
}

/// How many bytes the first `n` bank selections take at the front of
/// `input`, or the error of the first that does not decode.
pub open spec fn selections_outcome(input: Seq<u8>, n: nat) -> Result<int, UnmarshalError>
    decreases n,
{
    if n == 0 {
        Ok(0)
    } else {
        match selections_outcome(input, (n - 1) as nat) {
            Err(e) => Err(e),
            Ok(at) => match PcrSelection::outcome(input.skip(at)) {
                Err(e) => Err(e),
                Ok(k) => Ok(at + k),
            },
        }
    }
}

/// Whether `list` is what the front of `input` decodes to: each selection
/// from the bytes that follow the one before it.
pub open spec fn selections_decoded(list: Seq<PcrSelection>, input: Seq<u8>) -> bool {
    forall|i: int|
        0 <= i < list.len() ==> (#[trigger] list[i]).decoded_from(
            input.skip(selections_outcome(input, i as nat).unwrap()),
        )
}

/// An error among the first `m` selections is the error of any longer list.
pub proof fn lemma_selections_error_stays(input: Seq<u8>, m: nat, n: nat)
    requires
        m <= n,
        selections_outcome(input, m).is_err(),
    ensures
        selections_outcome(input, n) == selections_outcome(input, m),
    decreases n - m,
{
    if m < n {
        lemma_selections_error_stays(input, m, (n - 1) as nat);
    }
}

/// Reads `count` bank selections, in the order in which they stand in the
/// input. `*buf` moves past them. The first selection that does not decode
/// ends the reading with its error.
pub fn unmarshal_selections(count: usize, buf: &mut &[u8]) -> (r: Result<
    Vec<PcrSelection>,
    UnmarshalError,
>)
    ensures
        match selections_outcome(old(buf)@, count as nat) {
            Ok(n) => {
                &&& r.is_ok()
                &&& 0 <= n <= old(buf)@.len()
                &&& r.unwrap()@.len() == count
                &&& selections_decoded(r.unwrap()@, old(buf)@)
                &&& final(buf)@ == old(buf)@.skip(n)
            },
            Err(e) => r == Err::<Vec<PcrSelection>, UnmarshalError>(e),
        },
{
    let ghost input = buf@;
    let ghost used: int = 0;
    let mut out: Vec<PcrSelection> = Vec::new();
    let mut i: usize = 0;
    assert(buf@ =~= input.skip(0));
    while i < count
        invariant
            i <= count,
            input == old(buf)@,
            out@.len() == i,
            0 <= used <= input.len(),
            selections_outcome(input, i as nat) == Ok::<int, UnmarshalError>(used),
            buf@ == input.skip(used),
            selections_decoded(out@, input),
        decreases count - i,
    {
        let mut item = PcrSelection::none(Alg::NULL);
        match item.unmarshal(buf) {
            Ok(()) => {},
            Err(e) => {
                proof {
                    lemma_selections_error_stays(input, (i + 1) as nat, count as nat);
                }
                return Err(e);
            },
        }
        let ghost before = out@;
        out.push(item);
        proof {
            let k = PcrSelection::outcome(input.skip(used)).unwrap();
            assert(input.skip(used).skip(k) =~= input.skip(used + k));
            assert forall|j: int| 0 <= j < out@.len() implies (#[trigger] out@[j]).decoded_from(
                input.skip(selections_outcome(input, j as nat).unwrap()),
            ) by {
                if j < i {
                    assert(out@[j] == before[j]);
                }
            }
            used = used + k;
        }
        i += 1;
    }
    Ok(out)
}

/// Decoding an encoded list of bank selections succeeds on any input that
/// starts with the encoding, consumes exactly `6 * n` bytes for its `n`
/// selections, and yields the same selections in the same order.
#[verifier::rlimit(40)]
pub proof fn lemma_selections_round_trip(
    list: Seq<PcrSelection>,
    back: Seq<PcrSelection>,
    rest: Seq<u8>,
)
    ensures
        selections_outcome(selections_wire(list) + rest, list.len()) == Ok::<int, UnmarshalError>(
            6 * list.len() as int,
        ),
        back.len() == list.len() && selections_decoded(back, selections_wire(list) + rest)
            ==> back == list,
{
    let input = selections_wire(list) + rest;
    lemma_selections_prefixes(list, rest, list.len());
    if back.len() == list.len() && selections_decoded(back, input) {
        assert forall|i: int| 0 <= i < list.len() implies back[i] == list[i] by {
            let tail = input.skip(6 * i + 6);
            lemma_selections_prefixes(list, rest, i as nat);
            assert(back[i].decoded_from(input.skip(6 * i)));
            assert(input.skip(6 * i) == list[i].wire() + tail) by {
                lemma_selection_at(list, rest, i);
                assert(input.skip(6 * i) =~= input.subrange(6 * i, 6 * i + 6) + tail);
            }
            lemma_pcr_selection_round_trip(list[i], back[i], tail);
        }
        assert(back =~= list);
    }
}

/// The encoding of selection `i` of a list stands at byte `6 * i` of the
/// list's encoding.
#[verifier::rlimit(40)]
pub proof fn lemma_selection_at(list: Seq<PcrSelection>, rest: Seq<u8>, i: int)
    requires
        0 <= i < list.len(),
    ensures
        selections_wire(list).len() == 6 * list.len(),
        (selections_wire(list) + rest).subrange(6 * i, 6 * i + 6) == list[i].wire(),
    decreases list.len(),
{
    let prefix = list.drop_last();
    let last = list.last().wire();
    lemma_selections_wire_len(list);
    lemma_selections_wire_len(prefix);
    assert(last.len() == 6);
    assert(selections_wire(list) == selections_wire(prefix) + last);
    let whole = selections_wire(list) + rest;
    if i == list.len() - 1 {
        assert(whole.subrange(6 * i, 6 * i + 6) =~= last);
    } else {
        lemma_selection_at(prefix, last + rest, i);
        assert(prefix[i] == list[i]);
        assert(whole =~= selections_wire(prefix) + (last + rest));
    }
}

/// The first `m` selections of an encoded list take `6 * m` bytes.
#[verifier::rlimit(40)]
pub proof fn lemma_selections_prefixes(list: Seq<PcrSelection>, rest: Seq<u8>, m: nat)
    requires
        m <= list.len(),
    ensures
        selections_outcome(selections_wire(list) + rest, m) == Ok::<int, UnmarshalError>(
            6 * m as int,
        ),
    decreases m,
{
    if m > 0 {
        let input = selections_wire(list) + rest;
        let i = (m - 1) as int;
        let tail = input.skip(6 * i + 6);
        lemma_selections_prefixes(list, rest, (m - 1) as nat);
        assert(input.skip(6 * i) == list[i].wire() + tail) by {
            lemma_selection_at(list, rest, i);
            assert(input.skip(6 * i) =~= input.subrange(6 * i, 6 * i + 6) + tail);
        }
        assert(PcrSelection::outcome(input.skip(6 * i)) == Ok::<int, UnmarshalError>(6)) by {
            lemma_pcr_selection_round_trip(list[i], list[i], tail);
        }
    }
}

/// An input that stops inside an encoding is reported as truncated: every
/// proper prefix of an encoded record, selection or byte field fails to
/// decode with `Truncated`.
#[verifier::rlimit(40)]
pub proof fn lemma_cut_encoding_is_truncated(
    c: ClockInfo,
    t: TimeInfo,
    s: PcrSelection,
    data: Seq<u8>,
    k: int,
)
    requires
        0 <= k,
        data.len() <= 0xffff,
    ensures
        k < 17 ==> ClockInfo::outcome(c.wire().take(k)) == Err::<int, UnmarshalError>(
            UnmarshalError::Truncated,
        ),
        k < 25 ==> TimeInfo::outcome(t.wire().take(k)) == Err::<int, UnmarshalError>(
            UnmarshalError::Truncated,
        ),
        k < 4 ==> PcrSelect::outcome(s.select.wire().take(k)) == Err::<int, UnmarshalError>(
            UnmarshalError::Truncated,
        ),
        k < 6 ==> PcrSelection::outcome(s.wire().take(k)) == Err::<int, UnmarshalError>(
            UnmarshalError::Truncated,
        ),
        k < 2 + data.len() ==> sized_outcome(sized(data).take(k)) == Err::<int, UnmarshalError>(
            UnmarshalError::Truncated,
        ),
{
    if k < 4 {
        let cut = s.select.wire().take(k);
        if k >= 1 {
            assert(cut[0] == 3);
        }
    }
    if k < 6 {
        let cut = s.wire().take(k);
        if k >= 2 {
            let id = s.hash.spec_id();
            assert(from_be16(cut) == id) by {
                lemma_join_of_split(id, 0, 0);
                assert(cut[0] == be16(id)[0]);
                assert(cut[1] == be16(id)[1]);
            }
            lemma_alg_id_round_trip(s.hash);
            assert(cut.skip(2) =~= s.select.wire().take(k - 2));
            if k >= 3 {
                assert(cut.skip(2)[0] == 3);
            }
        }
    }
    if k < 2 + data.len() {
        let cut = sized(data).take(k);
        if k >= 2 {
            let n = data.len() as u16;
            assert(from_be16(cut) == n) by {
                lemma_join_of_split(n, 0, 0);
                assert(cut[0] == be16(n)[0]);
                assert(cut[1] == be16(n)[1]);
            }
        }
    }
}

impl Default for ClockInfo {
    fn default() -> (r: ClockInfo)
        ensures
            r == (ClockInfo { clock: 0, reset_count: 0, restart_count: 0, safe: false }),
    {
        ClockInfo::new()
    }
}

impl Default for TimeInfo {
    fn default() -> (r: TimeInfo)
        ensures
            r.time == 0,
            r.clock_info == (ClockInfo { clock: 0, reset_count: 0, restart_count: 0, safe: false }),
    {
        TimeInfo::new()
    }
}

impl<'a> Default for AuthCommand<'a> {
    fn default() -> (r: AuthCommand<'a>)
        ensures
            r.session_handle == Handle(0),
            r.nonce@.len() == 0,
            r.session_attributes == Session(0),
            r.hmac@.len() == 0,
    {
        let e: &'a [u8] = &[];
        AuthCommand { session_handle: Handle(0), nonce: e, session_attributes: Session(0), hmac: e }
    }
}

impl<'a> Default for AuthResponse<'a> {
    fn default() -> (r: AuthResponse<'a>)
        ensures
            r.nonce@.len() == 0,
            r.session_attributes == Session(0),
            r.hmac@.len() == 0,
    {
        AuthResponse::new()
    }
}

impl Default for PcrSelection {
    fn default() -> (r: PcrSelection)
        ensures
            r.hash == Alg::NULL,
            forall|i: int| 0 <= i < 24 ==> !r.select@[i],
    {
        PcrSelection::none(Alg::NULL)
    }
}

} // verus!
