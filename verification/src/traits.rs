//! The device transport, and what is built on top of it: running one
//! command, and workflows that run several.
use vstd::prelude::*;
use crate::commands::{
    auths_encodable, build_command, lemma_build_failure, parse_response, parses_as,
    response_outcome, Command, GetRandom,
};
use crate::error::{DriverError, Error, MarshalError, UnmarshalError};
use crate::marshal::{sized_outcome, sized_payload, splice, write_bytes, Marshal, Unmarshal};
use crate::types::tpms::AuthCommand;

verus! {

/// A TPM 2.0 device: two buffers and one blocking exchange. The library
/// promises nothing about an implementation and relies on nothing from it.
pub trait Tpm {
    /// The buffer into which a command is built.
    fn command_buf(&mut self) -> &mut [u8];

    /// The buffer that holds the device's last response.
    fn response_buf(&self) -> &[u8];

    /// Sends the first `cmd_size` bytes of the command buffer and waits
    /// for the response.
    fn execute_command(&mut self, cmd_size: u32) -> Result<(), DriverError>;
}

/// Whether `bytes` is what `dev` hands out as its response buffer: a result
/// of `response_buf` on `dev`.
pub open spec fn response_of<T: Tpm + ?Sized>(dev: &T, bytes: &[u8]) -> bool {
    call_ensures(T::response_buf, (dev,), bytes)
}

/// Runs one command on `tpm`: builds it in the command buffer, executes it
/// once, and parses the response buffer into `rsp`. Each stage that fails
/// ends the run with that stage's error; a command without an encoding
/// never reaches the device. On success `rsp` is what the response buffer,
/// as the device left it, decodes to.
pub fn run_command<'a, T: Tpm, C: Marshal, R: Unmarshal<'a>>(
    tpm: &'a mut T,
    code: u32,
    auths: &[AuthCommand],
    cmd: &C,
    rsp: &mut R,
) -> (r: Result<(), Error>)
    ensures
        !(auths_encodable(auths@) && cmd.encodable()) ==> r is Err && r->Err_0 is Marshal,
        r == Err::<(), Error>(Error::Marshal(MarshalError::FieldTooLong)) ==> !(auths_encodable(
            auths@,
        ) && cmd.encodable()),
        r is Ok ==> exists|input: &[u8]|
            {
                &&& #[trigger] response_of(&*final(tpm), input)
                &&& parses_as(input@, auths@.len(), *final(rsp))
            },
{
    let buf = tpm.command_buf();
    proof {
        lemma_build_failure(buf@.len() as int, code, auths@, cmd.encodable(), cmd.wire());
    }
    let built = build_command(buf, code, auths, cmd);
    let size: u32 = match built {
        Ok(n) => n,
        Err(e) => { return Err(Error::Marshal(e)); },
    };
    match tpm.execute_command(size) {
        Ok(()) => {},
        Err(e) => { return Err(Error::Driver(e)); },
    }
    let device: &'a T = tpm;
    let input: &'a [u8] = device.response_buf();
    let r = parse_response(input, auths.len(), rsp);
    assert(response_of(device, input));
    r
}

/// Running raw commands on any device.
pub trait TpmRaw: Tpm {
    /// Runs `cmd` without authorizations.
    fn run<'a, C: Command>(&'a mut self, cmd: &C) -> (r: Result<C::Response<'a>, Error>)
        ensures
            !cmd.encodable() ==> r is Err && r->Err_0 is Marshal,
            r is Err && r->Err_0 == Error::Marshal(MarshalError::FieldTooLong)
                ==> !cmd.encodable(),
            r is Ok ==> exists|input: &[u8]|
                {
                    &&& #[trigger] response_of(&*final(self), input)
                    &&& parses_as(input@, 0, r->Ok_0)
                },
    ;

    /// Runs `cmd` with the authorization entries `auths`, in their order.
    fn run_with_auths<'a, C: Command>(&'a mut self, cmd: &C, auths: &[AuthCommand]) -> (r: Result<
        C::Response<'a>,
        Error,
    >)
        ensures
            !(auths_encodable(auths@) && cmd.encodable()) ==> r is Err && r->Err_0 is Marshal,
            r is Err && r->Err_0 == Error::Marshal(MarshalError::FieldTooLong) ==> !(
            auths_encodable(auths@) && cmd.encodable()),
            r is Ok ==> exists|input: &[u8]|
                {
                    &&& #[trigger] response_of(&*final(self), input)
                    &&& parses_as(input@, auths@.len(), r->Ok_0)
                },
    ;
}

impl<T: Tpm> TpmRaw for T {
    fn run<'a, C: Command>(&'a mut self, cmd: &C) -> (r: Result<C::Response<'a>, Error>) {
        let none: [AuthCommand; 0] = [];
        self.run_with_auths(cmd, none.as_slice())
    }

    fn run_with_auths<'a, C: Command>(&'a mut self, cmd: &C, auths: &[AuthCommand]) -> (r: Result<
        C::Response<'a>,
        Error,
    >) {
        let mut rsp = C::blank_response();
        match run_command(self, C::code(), auths, cmd, &mut rsp) {
            Ok(()) => {
                let out: Result<C::Response<'a>, Error> = Ok(rsp);
                assert(out->Ok_0 == rsp);
                out
            },
            Err(e) => Err(e),
        }
    }
}

/// Most bytes that one request for random bytes can ask for.
pub const MAX_RANDOM_REQUEST: u16 = 0xffff;

/// What is asked for when `remaining` bytes are still wanted: all of
/// them, up to the most that one request can carry.
pub open spec fn request_of(remaining: int) -> int {
    if remaining <= 0xffff {
        remaining
    } else {
        0xffff
    }
}

/// How many bytes to ask for when `remaining` are still wanted.
pub fn request_size(remaining: usize) -> (r: u16)
    ensures
        r == request_of(remaining as int),
        remaining > 0 ==> r > 0,
{
    if remaining > 0xffff {
        MAX_RANDOM_REQUEST
    } else {
        remaining as u16
    }
}

/// Whether a reply of `got` bytes to a request for `want` makes progress
/// without overrunning: at least one byte, at most what was asked for.
pub open spec fn chunk_ok(want: u16, got: nat) -> bool {
    0 < got <= want
}

/// Copies one reply into `buf` at `*filled` and advances `*filled` past it.
/// A reply that is empty, longer than `want`, or longer than the space left
/// is refused with `InvalidValue`, and nothing changes.
pub fn place_chunk(buf: &mut [u8], filled: &mut usize, want: u16, chunk: &[u8]) -> (r: Result<
    (),
    Error,
>)
    ensures
        final(buf)@.len() == old(buf)@.len(),
        chunk_ok(want, chunk@.len()) && *old(filled) + chunk@.len() <= old(buf)@.len() ==> {
            &&& r.is_ok()
            &&& *final(filled) == *old(filled) + chunk@.len()
            &&& final(buf)@ == splice(old(buf)@, *old(filled) as int, chunk@)
        },
        !(chunk_ok(want, chunk@.len()) && *old(filled) + chunk@.len() <= old(buf)@.len()) ==> {
            &&& r == Err::<(), Error>(Error::Unmarshal(UnmarshalError::InvalidValue))
            &&& *final(filled) == *old(filled)
            &&& final(buf)@ == old(buf)@
        },
{
    let got: usize = chunk.len();
    if got == 0 || got > want as usize {
        return Err(Error::Unmarshal(UnmarshalError::InvalidValue));
    }
    match write_bytes(buf, filled, chunk) {
        Ok(()) => Ok(()),
        Err(_) => Err(Error::Unmarshal(UnmarshalError::InvalidValue)),
    }
}

/// Whether `last` is the random bytes that `response` carries: the
/// response is well framed, without session replies, and its payload is a
/// byte field that holds `last`.
pub open spec fn last_reply(response: Seq<u8>, last: Seq<u8>) -> bool {
    match response_outcome(response, 0) {
        Err(_) => false,
        Ok((from, to)) => sized_outcome(response.subrange(from, to)).is_ok() && last
            == sized_payload(response.subrange(from, to)),
    }
}

/// Whether `bytes` is a response buffer that a device of type `T` handed
/// out in some state.
pub open spec fn handed_out<T: Tpm + ?Sized>(bytes: &[u8]) -> bool {
    exists|dev: &T| response_of(dev, bytes)
}

/// The random bytes that a response carries: the payload of the byte field
/// that follows its header.
pub open spec fn reply_bytes(response: Seq<u8>) -> Seq<u8> {
    match response_outcome(response, 0) {
        Err(_) => Seq::<u8>::empty(),
        Ok((from, to)) => sized_payload(response.subrange(from, to)),
    }
}

/// The random bytes of `responses`, laid end to end in their order.
pub open spec fn replies_joined(responses: Seq<&[u8]>) -> Seq<u8>
    decreases responses.len(),
{
    if responses.len() == 0 {
        Seq::<u8>::empty()
    } else {
        replies_joined(responses.drop_last()) + reply_bytes(responses.last()@)
    }
}

/// Whether each of `responses` is a response buffer that a device of type
/// `T` handed out, well framed, and with at least one random byte in it.
pub open spec fn all_replies<T: Tpm + ?Sized>(responses: Seq<&[u8]>) -> bool {
    forall|i: int|
        0 <= i < responses.len() ==> {
            &&& handed_out::<T>(#[trigger] responses[i])
            &&& last_reply(responses[i]@, reply_bytes(responses[i]@))
            &&& reply_bytes(responses[i]@).len() > 0
        }
}

/// Workflows that take several commands.
pub trait TpmExt: Tpm {
    /// Fills `buf` with random bytes from the device, asking again until
    /// it is full. Each request asks for what is still wanted, at most
    /// 65535 bytes, and each reply is laid behind the one before it. A
    /// reply that is empty or longer than asked for ends the filling with
    /// `InvalidValue`, as any failed command ends it with its error. So
    /// success means that every byte of `buf` comes from a response that
    /// the device handed out, the responses end to end in their order, and
    /// that the buffer ends with the random bytes of the response that the
    /// device holds at the end.
    fn getrandom(&mut self, buf: &mut [u8]) -> (r: Result<(), Error>)
        ensures
            final(buf)@.len() == old(buf)@.len(),
            old(buf)@.len() == 0 ==> r.is_ok() && final(buf)@ == old(buf)@,
            r.is_ok() ==> exists|responses: Seq<&[u8]>|
                {
                    &&& #[trigger] all_replies::<Self>(responses)
                    &&& final(buf)@ == replies_joined(responses)
                },
            r.is_ok() && old(buf)@.len() > 0 ==> exists|input: &[u8], last: Seq<u8>|
                {
                    &&& #[trigger] response_of(&*final(self), input)
                    &&& #[trigger] last_reply(input@, last)
                    &&& 0 < last.len() <= final(buf)@.len()
                    &&& final(buf)@.skip(final(buf)@.len() - last.len()) == last
                },
    ;
}

impl<T: Tpm> TpmExt for T {
    fn getrandom(&mut self, buf: &mut [u8]) -> (r: Result<(), Error>) {
        let total: usize = buf.len();
        let mut filled: usize = 0;
        let ghost responses: Seq<&[u8]> = Seq::empty();
        proof {
            assert(buf@.take(0) =~= replies_joined(responses));
        }
        while filled < total
            invariant
                filled <= total == buf@.len(),
                buf@.len() == old(buf)@.len(),
                total == 0 ==> buf@ == old(buf)@,
                all_replies::<T>(responses),
                replies_joined(responses) == buf@.take(filled as int),
                filled > 0 ==> exists|input: &[u8], last: Seq<u8>|
                    {
                        &&& #[trigger] response_of(&*self, input)
                        &&& #[trigger] last_reply(input@, last)
                        &&& 0 < last.len() <= filled
                        &&& buf@.subrange(filled - last.len(), filled as int) == last
                    },
            decreases total - filled,
        {
            let want = request_size(total - filled);
            let rsp = self.run(&GetRandom { bytes_requested: want })?;
            let ghost before = buf@;
            let ghost at = filled;
            let ghost chunk = rsp.random_bytes@;
            place_chunk(buf, &mut filled, want, rsp.random_bytes)?;
            proof {
                let input = choose|input: &[u8]|
                    {
                        &&& #[trigger] response_of(&*self, input)
                        &&& parses_as(input@, 0, rsp)
                    };
                assert(buf@.subrange(at as int, filled as int) =~= chunk);
                assert(response_of(&*self, input) && last_reply(input@, chunk));
                assert(reply_bytes(input@) == chunk);
                assert(handed_out::<T>(input));
                let grown = responses.push(input);
                assert(grown.drop_last() =~= responses);
                assert(grown.last() == input);
                assert forall|i: int| 0 <= i < grown.len() implies {
                    &&& handed_out::<T>(#[trigger] grown[i])
                    &&& last_reply(grown[i]@, reply_bytes(grown[i]@))
                    &&& reply_bytes(grown[i]@).len() > 0
                } by {
                    if i < responses.len() {
                        assert(grown[i] == responses[i]);
                    }
                }
                assert(buf@.take(filled as int) =~= before.take(at as int) + chunk);
                responses = grown;
            }
        }
        proof {
            assert(buf@.take(total as int) =~= buf@);
            assert(all_replies::<T>(responses) && buf@ == replies_joined(responses));
            if total > 0 {
                let (input, last) = choose|input: &[u8], last: Seq<u8>|
                    {
                        &&& #[trigger] response_of(&*self, input)
                        &&& #[trigger] last_reply(input@, last)
                        &&& 0 < last.len() <= filled
                        &&& buf@.subrange(filled - last.len(), filled as int) == last
                    };
                assert(buf@.skip(buf@.len() - last.len()) =~= last);
                assert(response_of(&*self, input) && last_reply(input@, last));
            }
        }
        Ok(())
    }
}

} // verus!
