//! Commands, and the two pure halves of the pipeline: building the command
//! buffer and parsing the response buffer.
use vstd::prelude::*;
use crate::error::{DriverError, Error, MarshalError, UnmarshalError};
use crate::marshal::{
    be16, be32, from_be32, lemma_splice_append, marshal_u16, marshal_u32,
    pop_slice, sized_outcome, sized_payload, splice, unmarshal_sized, unmarshal_u16,
    unmarshal_u32, Marshal, Unmarshal,
};
use crate::types::tpms::{
    lemma_selections_wire_len, marshal_selections, selections_decoded, selections_outcome,
    selections_wire, unmarshal_selections, AuthCommand, AuthResponse, PcrSelection,
};

verus! {

/// Header tag of a command or response without an authorization area.
pub const TAG_NO_SESSIONS: u16 = 0x8001;

/// Header tag of a command or response with an authorization area.
pub const TAG_SESSIONS: u16 = 0x8002;

/// Bytes of a header: tag, total size, then the opcode or response code.
pub const HEADER_SIZE: usize = 10;

/// Opcode of the request for random bytes.
pub const CC_GET_RANDOM: u32 = 0x0000_017B;

/// Opcode of the request for register values.
pub const CC_PCR_READ: u32 = 0x0000_017E;

/// A request: its opcode and the response type that answers it.
pub trait Command: Marshal {
    /// The response, whose borrowed fields live in the response buffer.
    type Response<'a>: Unmarshal<'a>;

    spec fn spec_code() -> u32;

    /// The opcode that the header carries.
    fn code() -> (r: u32)
        ensures
            r == Self::spec_code(),
    ;

    /// An empty response value to decode into.
    fn blank_response<'a>() -> Self::Response<'a>;
}

/// Asks the device for up to `bytes_requested` random bytes.
#[derive(Clone, Copy, Debug, PartialEq, Eq)]
pub struct GetRandom {
    pub bytes_requested: u16,
}

/// The random bytes that the device returned, possibly fewer than asked for.
#[derive(Clone, Copy, Debug, PartialEq, Eq)]
pub struct GetRandomResponse<'a> {
    pub random_bytes: &'a [u8],
}

impl Marshal for GetRandom {
    open spec fn wire(&self) -> Seq<u8> {
        be16(self.bytes_requested)
    }

    open spec fn encodable(&self) -> bool {
        true
    }

    fn marshal(&self, buf: &mut [u8], pos: &mut usize) -> (r: Result<(), MarshalError>) {
        marshal_u16(self.bytes_requested, buf, pos)
    }
}

impl<'a> Unmarshal<'a> for GetRandomResponse<'a> {
    open spec fn outcome(input: Seq<u8>) -> Result<int, UnmarshalError> {
        sized_outcome(input)
    }

    open spec fn decoded_from(&self, input: Seq<u8>) -> bool {
        self.random_bytes@ == sized_payload(input)
    }

    fn unmarshal(&mut self, buf: &mut &'a [u8]) -> (r: Result<(), UnmarshalError>) {
        self.random_bytes = unmarshal_sized(buf)?;
        Ok(())
    }
}

impl Command for GetRandom {
    type Response<'a> = GetRandomResponse<'a>;

    open spec fn spec_code() -> u32 {
        CC_GET_RANDOM
    }

    fn code() -> (r: u32) {
        CC_GET_RANDOM
    }

    /// The response that holds no random bytes.
    fn blank_response<'a>() -> (r: GetRandomResponse<'a>)
        ensures
            r.random_bytes@ == Seq::<u8>::empty(),
    {
        let e: &'a [u8] = &[];
        assert(e@ =~= Seq::<u8>::empty());
        GetRandomResponse { random_bytes: e }
    }
}

/// Asks for the values of the selected registers, bank by bank.
#[derive(Clone, Copy, Debug)]
pub struct PcrRead<'a> {
    pub pcr_selection: &'a [PcrSelection],
}

/// The registers that the device read, in the device's order of banks, and
/// their digests, which borrow from the response.
#[derive(Debug, PartialEq, Eq)]
pub struct PcrReadResponse<'a> {
    pub update_counter: u32,
    pub pcr_selection: Vec<PcrSelection>,
    pub pcr_values: Vec<&'a [u8]>,
}

impl<'b> Marshal for PcrRead<'b> {
    /// The number of selections in 32 bits, then the selections in order.
    open spec fn wire(&self) -> Seq<u8> {
        be32(self.pcr_selection@.len() as u32) + selections_wire(self.pcr_selection@)
    }

    open spec fn encodable(&self) -> bool {
        self.pcr_selection@.len() <= 0xffff_ffff
    }

    fn marshal(&self, buf: &mut [u8], pos: &mut usize) -> (r: Result<(), MarshalError>) {
        let n: usize = self.pcr_selection.len();
        if n > 0xffff_ffff {
            return Err(MarshalError::FieldTooLong);
        }
        let start: usize = *pos;
        proof {
            lemma_selections_wire_len(self.pcr_selection@);
        }
        if start > buf.len() || buf.len() - start < 4 || n > (buf.len() - start - 4) / 6 {
            return Err(MarshalError::BufferTooSmall);
        }
        let ghost before = buf@;
        let _ = marshal_u32(n as u32, buf, pos);
        let _ = marshal_selections(self.pcr_selection, buf, pos);
        proof {
            lemma_splice_append(
                before,
                start as int,
                be32(n as u32),
                selections_wire(self.pcr_selection@),
            );
        }
        Ok(())
    }
}

/// How many bytes the first `n` digests take at the front of `input`, each
/// a byte field, or `Truncated` where one of them is cut.
pub open spec fn digests_outcome(input: Seq<u8>, n: nat) -> Result<int, UnmarshalError>
    decreases n,
{
    if n == 0 {
        Ok(0)
    } else {
        match digests_outcome(input, (n - 1) as nat) {
            Err(e) => Err(e),
            Ok(at) => match sized_outcome(input.skip(at)) {
                Err(e) => Err(e),
                Ok(k) => Ok(at + k),
            },
        }
    }
}

/// Whether `list` holds the payloads of the byte fields at the front of
/// `input`, in their order.
pub open spec fn digests_decoded(list: Seq<&[u8]>, input: Seq<u8>) -> bool {
    forall|i: int|
        0 <= i < list.len() ==> (#[trigger] list[i])@ == sized_payload(
            input.skip(digests_outcome(input, i as nat).unwrap()),
        )
}

/// An error among the first `m` digests is the error of any longer list.
pub proof fn lemma_digests_error_stays(input: Seq<u8>, m: nat, n: nat)
    requires
        m <= n,
        digests_outcome(input, m).is_err(),
    ensures
        digests_outcome(input, n) == digests_outcome(input, m),
    decreases n - m,
{
    if m < n {
        lemma_digests_error_stays(input, m, (n - 1) as nat);
    }
}

/// Reads `count` digests, each a byte field, in the order in which they
/// stand in the input. The digests borrow from the input, and `*buf` moves
/// past them.
pub fn unmarshal_digests<'a>(count: usize, buf: &mut &'a [u8]) -> (r: Result<
    Vec<&'a [u8]>,
    UnmarshalError,
>)
    ensures
        match digests_outcome(old(buf)@, count as nat) {
            Ok(n) => {
                &&& r.is_ok()
                &&& 0 <= n <= old(buf)@.len()
                &&& r.unwrap()@.len() == count
                &&& digests_decoded(r.unwrap()@, old(buf)@)
                &&& final(buf)@ == old(buf)@.skip(n)
            },
            Err(e) => r == Err::<Vec<&[u8]>, UnmarshalError>(e),
        },
{
    let ghost input = buf@;
    let ghost used: int = 0;
    let mut out: Vec<&'a [u8]> = Vec::new();
    let mut i: usize = 0;
    assert(buf@ =~= input.skip(0));
    while i < count
        invariant
            i <= count,
            input == old(buf)@,
            out@.len() == i,
            0 <= used <= input.len(),
            digests_outcome(input, i as nat) == Ok::<int, UnmarshalError>(used),
            buf@ == input.skip(used),
            digests_decoded(out@, input),
        decreases count - i,
    {
        let item: &'a [u8] = match unmarshal_sized(buf) {
            Ok(d) => d,
            Err(e) => {
                proof {
                    lemma_digests_error_stays(input, (i + 1) as nat, count as nat);
                }
                return Err(e);
            },
        };
        let ghost before = out@;
        out.push(item);
        proof {
            let k = sized_outcome(input.skip(used)).unwrap();
            assert(input.skip(used).skip(k) =~= input.skip(used + k));
            assert forall|j: int| 0 <= j < out@.len() implies (#[trigger] out@[j])@
                == sized_payload(input.skip(digests_outcome(input, j as nat).unwrap())) by {
                if j < i {
                    assert(out@[j] == before[j]);
                }
            }
            used = used + k;
        }
        i += 1;
    }
    Ok(out)
}

/// Where the count of digests stands in a response to a register read:
/// behind the update counter, the count of selections and the selections.
pub open spec fn pcr_read_digests_at(input: Seq<u8>) -> int {
    8 + selections_outcome(input.skip(8), from_be32(input.skip(4)) as nat).unwrap() + 4
}

impl<'a> Unmarshal<'a> for PcrReadResponse<'a> {
    /// Update counter, count of selections, the selections, count of
    /// digests, the digests.
    open spec fn outcome(input: Seq<u8>) -> Result<int, UnmarshalError> {
        if input.len() < 8 {
            Err(UnmarshalError::Truncated)
        } else {
            match selections_outcome(input.skip(8), from_be32(input.skip(4)) as nat) {
                Err(e) => Err(e),
                Ok(a) => if input.len() < 8 + a + 4 {
                    Err(UnmarshalError::Truncated)
                } else {
                    match digests_outcome(
                        input.skip(8 + a + 4),
                        from_be32(input.skip(8 + a)) as nat,
                    ) {
                        Err(e) => Err(e),
                        Ok(b) => Ok(8 + a + 4 + b),
                    }
                },
            }
        }
    }

    open spec fn decoded_from(&self, input: Seq<u8>) -> bool {
        let at = pcr_read_digests_at(input);
        &&& self.update_counter == from_be32(input)
        &&& self.pcr_selection@.len() == from_be32(input.skip(4))
        &&& selections_decoded(self.pcr_selection@, input.skip(8))
        &&& self.pcr_values@.len() == from_be32(input.skip(at - 4))
        &&& digests_decoded(self.pcr_values@, input.skip(at))
    }

    fn unmarshal(&mut self, buf: &mut &'a [u8]) -> (r: Result<(), UnmarshalError>) {
        let ghost input = buf@;
        self.update_counter = unmarshal_u32(buf)?;
        let n = unmarshal_u32(buf)?;
        assert(buf@ =~= input.skip(8));
        self.pcr_selection = unmarshal_selections(n as usize, buf)?;
        let ghost a = selections_outcome(input.skip(8), n as nat).unwrap();
        assert(input.skip(8).skip(a) =~= input.skip(8 + a));
        let m = unmarshal_u32(buf)?;
        assert(buf@ =~= input.skip(8 + a + 4));
        self.pcr_values = unmarshal_digests(m as usize, buf)?;
        let ghost b = digests_outcome(input.skip(8 + a + 4), m as nat).unwrap();
        assert(input.skip(8 + a + 4).skip(b) =~= input.skip(8 + a + 4 + b));
        Ok(())
    }
}

impl<'b> Command for PcrRead<'b> {
    type Response<'a> = PcrReadResponse<'a>;

    open spec fn spec_code() -> u32 {
        CC_PCR_READ
    }

    fn code() -> (r: u32) {
        CC_PCR_READ
    }

    /// The response with update counter zero, no selection and no digest.
    fn blank_response<'a>() -> (r: PcrReadResponse<'a>)
        ensures
            r.update_counter == 0,
            r.pcr_selection@ == Seq::<PcrSelection>::empty(),
            r.pcr_values@ == Seq::<&[u8]>::empty(),
    {
        PcrReadResponse { update_counter: 0, pcr_selection: Vec::new(), pcr_values: Vec::new() }
    }
}

/// The entries of an authorization area, one after the other in order.
pub open spec fn auths_wire(auths: Seq<AuthCommand>) -> Seq<u8>
    decreases auths.len(),
{
    if auths.len() == 0 {
        Seq::<u8>::empty()
    } else {
        auths_wire(auths.drop_last()) + auths.last().wire()
    }
}

/// Whether every entry of the area has an encoding.
pub open spec fn auths_encodable(auths: Seq<AuthCommand>) -> bool {
    forall|i: int| 0 <= i < auths.len() ==> (#[trigger] auths[i]).encodable()
}

/// The tag that a command with `n` authorization entries carries.
pub open spec fn command_tag(n: nat) -> u16 {
    if n == 0 {
        TAG_NO_SESSIONS
    } else {
        TAG_SESSIONS
    }
}

/// What follows tag and size in a command: opcode, authorization area,
/// then the command's own payload.
pub open spec fn command_tail(code: u32, auths: Seq<AuthCommand>, body: Seq<u8>) -> Seq<u8> {
    be32(code) + auths_wire(auths) + body
}

/// A whole command on the wire. The size field counts every byte of it.
pub open spec fn command_wire(code: u32, auths: Seq<AuthCommand>, body: Seq<u8>) -> Seq<u8> {
    let tail = command_tail(code, auths, body);
    be16(command_tag(auths.len())) + be32((6 + tail.len()) as u32) + tail
}

/// Overwriting a middle part of what was written is writing the whole with
/// that part replaced.
pub proof fn lemma_splice_patch(buf: Seq<u8>, a: Seq<u8>, b0: Seq<u8>, b1: Seq<u8>, c: Seq<u8>)
    requires
        b0.len() == b1.len(),
        a.len() + b0.len() + c.len() <= buf.len(),
    ensures
        splice(splice(buf, 0, a + b0 + c), a.len() as int, b1) == splice(buf, 0, a + b1 + c),
{
    assert(splice(splice(buf, 0, a + b0 + c), a.len() as int, b1) =~= splice(buf, 0, a + b1 + c));
}

/// The error at which writing the entries in order into `space` bytes
/// stops, if it stops: the first entry that has no encoding, or that no
/// longer fits behind those before it.
pub open spec fn auths_failure(auths: Seq<AuthCommand>, space: int) -> Option<MarshalError>
    decreases auths.len(),
{
    if auths.len() == 0 {
        None
    } else {
        match auths_failure(auths.drop_last(), space) {
            Some(e) => Some(e),
            None => if !auths.last().encodable() {
                Some(MarshalError::FieldTooLong)
            } else if auths_wire(auths).len() > space {
                Some(MarshalError::BufferTooSmall)
            } else {
                None
            },
        }
    }
}

/// The error at which building a command in a buffer of `cap` bytes stops,
/// if it stops: the header, the entries and the payload are written in
/// that order, and the first part that fails gives the error. A command
/// too long for a 32-bit size is `BufferTooSmall` as well.
pub open spec fn build_failure(
    cap: int,
    auths: Seq<AuthCommand>,
    encodable: bool,
    body_len: int,
) -> Option<MarshalError> {
    if cap < 10 {
        Some(MarshalError::BufferTooSmall)
    } else {
        match auths_failure(auths, cap - 10) {
            Some(e) => Some(e),
            None => if !encodable {
                Some(MarshalError::FieldTooLong)
            } else if 10 + auths_wire(auths).len() + body_len > cap || 10 + auths_wire(
                auths,
            ).len() + body_len > u32::MAX {
                Some(MarshalError::BufferTooSmall)
            } else {
                None
            },
        }
    }
}

/// Writing the entries fails exactly where one of them has no encoding or
/// all of them together do not fit; `FieldTooLong` comes only in the first
/// case and `BufferTooSmall` only in the second.
pub proof fn lemma_auths_failure(auths: Seq<AuthCommand>, space: int)
    requires
        0 <= space,
    ensures
        auths_failure(auths, space).is_none() <==> auths_encodable(auths) && auths_wire(
            auths,
        ).len() <= space,
        auths_failure(auths, space) == Some(MarshalError::FieldTooLong) ==> !auths_encodable(
            auths,
        ),
        auths_failure(auths, space) == Some(MarshalError::BufferTooSmall) ==> auths_wire(
            auths,
        ).len() > space,
    decreases auths.len(),
{
    if auths.len() > 0 {
        let front = auths.drop_last();
        lemma_auths_failure(front, space);
        assert(forall|i: int| 0 <= i < front.len() ==> front[i] == auths[i]);
        if auths_encodable(auths) {
            assert(auths.last() == auths[auths.len() - 1]);
            assert(auths_encodable(front));
        }
        if auths_encodable(front) && auths.last().encodable() {
            assert forall|i: int| 0 <= i < auths.len() implies (#[trigger] auths[i]).encodable() by {
                if i < front.len() {
                    assert(front[i].encodable());
                }
            }
        }
    }
}

/// Building a command succeeds exactly where every part has an encoding
/// and the whole fits the buffer and a 32-bit size; `FieldTooLong` comes
/// only where a part has no encoding, `BufferTooSmall` only where the
/// command does not fit.
pub proof fn lemma_build_failure(
    cap: int,
    code: u32,
    auths: Seq<AuthCommand>,
    encodable: bool,
    body: Seq<u8>,
)
    requires
        0 <= cap,
    ensures
        command_wire(code, auths, body).len() == 10 + auths_wire(auths).len() + body.len(),
        build_failure(cap, auths, encodable, body.len() as int).is_none() <==> {
            &&& auths_encodable(auths) && encodable
            &&& command_wire(code, auths, body).len() <= cap
            &&& command_wire(code, auths, body).len() <= u32::MAX
        },
        build_failure(cap, auths, encodable, body.len() as int) == Some(
            MarshalError::FieldTooLong,
        ) ==> !(auths_encodable(auths) && encodable),
        build_failure(cap, auths, encodable, body.len() as int) == Some(
            MarshalError::BufferTooSmall,
        ) ==> command_wire(code, auths, body).len() > cap || command_wire(code, auths, body).len()
            > u32::MAX,
{
    if cap >= 10 {
        lemma_auths_failure(auths, cap - 10);
    }
}

/// A failure among the first `m` entries is the failure of any longer
/// prefix of the entries.
pub proof fn lemma_auths_failure_stays(auths: Seq<AuthCommand>, space: int, m: int, n: int)
    requires
        0 <= m <= n <= auths.len(),
        auths_failure(auths.take(m), space).is_some(),
    ensures
        auths_failure(auths.take(n), space) == auths_failure(auths.take(m), space),
    decreases n - m,
{
    if m < n {
        lemma_auths_failure_stays(auths, space, m, n - 1);
        assert(auths.take(n).drop_last() =~= auths.take(n - 1));
    }
}

/// Writes the authorization entries in order at the cursor. The first entry
/// that fails ends the writing with its error; what was written before it
/// stays. A cursor beyond the buffer is `BufferTooSmall`.
#[verifier::rlimit(40)]
pub fn marshal_auths(auths: &[AuthCommand], buf: &mut [u8], pos: &mut usize) -> (r: Result<
    (),
    MarshalError,
>)
    ensures
        final(buf)@.len() == old(buf)@.len(),
        *old(pos) > old(buf)@.len() ==> r == Err::<(), MarshalError>(
            MarshalError::BufferTooSmall,
        ),
        *old(pos) <= old(buf)@.len() ==> match auths_failure(
            auths@,
            old(buf)@.len() - *old(pos),
        ) {
            Some(e) => r == Err::<(), MarshalError>(e),
            None => {
                &&& r.is_ok()
                &&& *final(pos) == *old(pos) + auths_wire(auths@).len()
                &&& final(buf)@ == splice(old(buf)@, *old(pos) as int, auths_wire(auths@))
            },
        },
{
    let ghost before = buf@;
    let start: usize = *pos;
    let cap: usize = buf.len();
    if start > cap {
        return Err(MarshalError::BufferTooSmall);
    }
    let ghost space = cap - start;
    let n: usize = auths.len();
    let mut i: usize = 0;
    proof {
        assert(auths@.take(0) =~= Seq::<AuthCommand>::empty());
        assert(buf@ =~= splice(before, start as int, auths_wire(auths@.take(0))));
    }
    while i < n
        invariant
            i <= n == auths@.len(),
            cap == buf@.len() == before.len(),
            before == old(buf)@,
            start == *old(pos),
            start <= cap,
            space == cap - start,
            *pos == start + auths_wire(auths@.take(i as int)).len() <= cap,
            auths_failure(auths@.take(i as int), space).is_none(),
            buf@ == splice(before, start as int, auths_wire(auths@.take(i as int))),
        decreases n - i,
    {
        let ghost done = auths_wire(auths@.take(i as int));
        proof {
            assert(auths@.take(i + 1).drop_last() =~= auths@.take(i as int));
            assert(auths@.take(i + 1).last() == auths@[i as int]);
        }
        match auths[i].marshal(buf, pos) {
            Ok(()) => {},
            Err(e) => {
                proof {
                    lemma_auths_failure_stays(auths@, space, i + 1, n as int);
                    assert(auths@.take(n as int) =~= auths@);
                }
                return Err(e);
            },
        }
        proof {
            lemma_splice_append(before, start as int, done, auths@[i as int].wire());
        }
        i += 1;
    }
    proof {
        assert(auths@.take(n as int) =~= auths@);
    }
    Ok(())
}

/// Builds a whole command at the front of `buf`: header, authorization
/// entries in order, then `cmd`. The first part that fails gives the error;
/// by `lemma_build_failure` that happens exactly where a part has no
/// encoding or the command does not fit the buffer and a 32-bit size. On
/// success the buffer starts with the command and the result is its length.
#[verifier::rlimit(40)]
pub fn build_command<C: Marshal>(buf: &mut [u8], code: u32, auths: &[AuthCommand], cmd: &C) -> (r:
    Result<u32, MarshalError>)
    ensures
        final(buf)@.len() == old(buf)@.len(),
        match build_failure(
            old(buf)@.len() as int,
            auths@,
            cmd.encodable(),
            cmd.wire().len() as int,
        ) {
            Some(e) => r == Err::<u32, MarshalError>(e),
            None => {
                &&& r.is_ok()
                &&& r.unwrap() == command_wire(code, auths@, cmd.wire()).len()
                &&& final(buf)@ == splice(old(buf)@, 0, command_wire(code, auths@, cmd.wire()))
            },
        },
{
    let ghost before = buf@;
    let ghost head = be16(command_tag(auths@.len()));
    let ghost zero = be32(0);
    let ghost area = auths_wire(auths@);
    let tag: u16 = if auths.len() == 0 {
        TAG_NO_SESSIONS
    } else {
        TAG_SESSIONS
    };
    let mut pos: usize = 0;
    marshal_u16(tag, buf, &mut pos)?;
    marshal_u32(0, buf, &mut pos)?;
    proof {
        lemma_splice_append(before, 0, head, zero);
    }
    marshal_u32(code, buf, &mut pos)?;
    proof {
        lemma_splice_append(before, 0, head + zero, be32(code));
    }
    marshal_auths(auths, buf, &mut pos)?;
    proof {
        lemma_auths_failure(auths@, before.len() - 10);
        lemma_splice_append(before, 0, head + zero + be32(code), area);
    }
    cmd.marshal(buf, &mut pos)?;
    let ghost tail = command_tail(code, auths@, cmd.wire());
    proof {
        lemma_splice_append(before, 0, head + zero + be32(code) + area, cmd.wire());
        assert(head + zero + be32(code) + area + cmd.wire() =~= head + zero + tail);
    }
    if pos > u32::MAX as usize {
        return Err(MarshalError::BufferTooSmall);
    }
    let total: u32 = pos as u32;
    let mut at: usize = 2;
    let _ = marshal_u32(total, buf, &mut at);
    proof {
        lemma_splice_patch(before, head, zero, be32(total), tail);
    }
    Ok(total)
}

/// How many bytes `n` session replies take at the front of `input`, or the
/// error of the first that does not decode.
pub open spec fn auths_outcome(input: Seq<u8>, n: nat) -> Result<int, UnmarshalError>
    decreases n,
{
    if n == 0 {
        Ok(0)
    } else {
        match AuthResponse::outcome(input) {
            Err(e) => Err(e),
            Ok(k) => match auths_outcome(input.skip(k), (n - 1) as nat) {
                Err(e) => Err(e),
                Ok(m) => Ok(k + m),
            },
        }
    }
}

/// An outcome counted from `by` bytes further back.
pub open spec fn shifted(r: Result<int, UnmarshalError>, by: int) -> Result<int, UnmarshalError> {
    match r {
        Ok(m) => Ok(by + m),
        Err(e) => Err(e),
    }
}

/// Where in a response the command's own payload lies, as start and end,
/// or the error that the framing gives: a header cut short or a size beyond
/// the buffer is `Truncated`, a size under ten is `InvalidValue`, a response
/// code other than zero is the device's error, and then the first session
/// reply that does not decode.
pub open spec fn response_outcome(input: Seq<u8>, n_auths: nat) -> Result<(int, int), Error> {
    if input.len() < 10 {
        Err(Error::Unmarshal(UnmarshalError::Truncated))
    } else {
        let size = from_be32(input.skip(2));
        let rc = from_be32(input.skip(6));
        if size < 10 {
            Err(Error::Unmarshal(UnmarshalError::InvalidValue))
        } else if size > input.len() {
            Err(Error::Unmarshal(UnmarshalError::Truncated))
        } else if rc != 0 {
            Err(Error::Driver(DriverError::Device(rc)))
        } else {
            match auths_outcome(input.subrange(10, size as int), n_auths) {
                Err(e) => Err(Error::Unmarshal(e)),
                Ok(k) => Ok((10 + k, size as int)),
            }
        }
    }
}

/// Whether `rsp` is what a well-framed response `input` with `n_auths`
/// session replies decodes to.
pub open spec fn parses_as<'a, R: Unmarshal<'a>>(input: Seq<u8>, n_auths: nat, rsp: R) -> bool {
    match response_outcome(input, n_auths) {
        Err(_) => false,
        Ok((from, to)) => R::outcome(input.subrange(from, to)).is_ok() && rsp.decoded_from(
            input.subrange(from, to),
        ),
    }
}

/// Parses a response: the header, `n_auths` session replies, which are
/// checked and stepped over, then the payload into `rsp`. The payload is
/// decoded from the bytes between the last reply and the size that the
/// header declares; bytes beyond that size are not looked at, and the tag
/// is read without being interpreted.
#[verifier::rlimit(40)]
pub fn parse_response<'a, R: Unmarshal<'a>>(input: &'a [u8], n_auths: usize, rsp: &mut R) -> (r:
    Result<(), Error>)
    ensures
        match response_outcome(input@, n_auths as nat) {
            Err(e) => r == Err::<(), Error>(e),
            Ok((from, to)) => match R::outcome(input@.subrange(from, to)) {
                Err(e) => r == Err::<(), Error>(Error::Unmarshal(e)),
                Ok(_) => r.is_ok() && final(rsp).decoded_from(input@.subrange(from, to)),
            },
        },
        r.is_ok() <==> parses_as(input@, n_auths as nat, *final(rsp)),
{
    let mut cur: &'a [u8] = input;
    let _tag = match unmarshal_u16(&mut cur) {
        Ok(t) => t,
        Err(e) => { return Err(Error::Unmarshal(e)); },
    };
    let size = match unmarshal_u32(&mut cur) {
        Ok(s) => s,
        Err(e) => { return Err(Error::Unmarshal(e)); },
    };
    let rc = match unmarshal_u32(&mut cur) {
        Ok(c) => c,
        Err(e) => { return Err(Error::Unmarshal(e)); },
    };
    assert(cur@ =~= input@.skip(10));
    if size < 10 {
        return Err(Error::Unmarshal(UnmarshalError::InvalidValue));
    }
    let mut body: &'a [u8] = match pop_slice(size as usize - 10, &mut cur) {
        Ok(b) => b,
        Err(e) => { return Err(Error::Unmarshal(e)); },
    };
    if rc != 0 {
        return Err(Error::Driver(DriverError::Device(rc)));
    }
    let ghost whole = input@.subrange(10, size as int);
    assert(body@ =~= whole);
    let ghost used: int = 0;
    let mut i: usize = 0;
    while i < n_auths
        invariant
            i <= n_auths,
            0 <= used <= whole.len(),
            body@ == whole.skip(used),
            auths_outcome(whole, n_auths as nat) == shifted(
                auths_outcome(body@, (n_auths - i) as nat),
                used,
            ),
            response_outcome(input@, n_auths as nat) == match auths_outcome(
                whole,
                n_auths as nat,
            ) {
                Err(e) => Err::<(int, int), Error>(Error::Unmarshal(e)),
                Ok(k) => Ok::<(int, int), Error>((10 + k, size as int)),
            },
        decreases n_auths - i,
    {
        let mut reply = AuthResponse::new();
        let ghost here = body@;
        match reply.unmarshal(&mut body) {
            Ok(()) => {},
            Err(e) => { return Err(Error::Unmarshal(e)); },
        }
        proof {
            let k = AuthResponse::outcome(here).unwrap();
            assert(whole.skip(used).skip(k) =~= whole.skip(used + k));
            used = used + k;
        }
        i += 1;
    }
    assert(body@ =~= input@.subrange(10 + used, size as int));
    match rsp.unmarshal(&mut body) {
        Ok(()) => Ok(()),
        Err(e) => Err(Error::Unmarshal(e)),
    }
}

} // verus!
