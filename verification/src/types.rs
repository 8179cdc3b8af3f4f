//! Scalar protocol types, and the structured records built from them.
use vstd::prelude::*;
use crate::error::{MarshalError, UnmarshalError};
use crate::marshal::{be16, from_be16, marshal_outcome, marshal_u16, unmarshal_u16};

pub mod tpms;

verus! {

/// A 32-bit handle that names an object or a session inside the device.
#[derive(Clone, Copy, Debug, PartialEq, Eq, Structural)]
pub struct Handle(pub u32);

/// The attribute flags of an authorization session, one byte on the wire.
#[derive(Clone, Copy, Debug, PartialEq, Eq, Structural)]
pub struct Session(pub u8);

/// The hash algorithms that name a bank of registers.
#[derive(Clone, Copy, Debug, PartialEq, Eq, Structural)]
pub enum Alg {
    SHA1,
    SHA256,
    SHA384,
    SHA512,
    NULL,
}

/// The algorithm that a 16-bit identifier names, if any.
pub open spec fn alg_of_id(id: u16) -> Option<Alg> {
    if id == 0x0004 {
        Some(Alg::SHA1)
    } else if id == 0x000B {
        Some(Alg::SHA256)
    } else if id == 0x000C {
        Some(Alg::SHA384)
    } else if id == 0x000D {
        Some(Alg::SHA512)
    } else if id == 0x0010 {
        Some(Alg::NULL)
    } else {
        None
    }
}

impl Alg {
    /// The identifier of the algorithm on the wire.
    pub open spec fn spec_id(self) -> u16 {
        match self {
            Alg::SHA1 => 0x0004,
            Alg::SHA256 => 0x000B,
            Alg::SHA384 => 0x000C,
            Alg::SHA512 => 0x000D,
            Alg::NULL => 0x0010,
        }
    }

    #[verifier::when_used_as_spec(spec_id)]
    pub fn id(self) -> (r: u16)
        ensures
            r == self.spec_id(),
    {
        match self {
            Alg::SHA1 => 0x0004,
            Alg::SHA256 => 0x000B,
            Alg::SHA384 => 0x000C,
            Alg::SHA512 => 0x000D,
            Alg::NULL => 0x0010,
        }
    }

    /// The algorithm with this identifier; `None` for an unknown one.
    pub fn from_id(id: u16) -> (r: Option<Alg>)
        ensures
            r == alg_of_id(id),
    {
        if id == 0x0004 {
            Some(Alg::SHA1)
        } else if id == 0x000B {
            Some(Alg::SHA256)
        } else if id == 0x000C {
            Some(Alg::SHA384)
        } else if id == 0x000D {
            Some(Alg::SHA512)
        } else if id == 0x0010 {
            Some(Alg::NULL)
        } else {
            None
        }
    }

    /// Writes the identifier in two bytes.
    pub fn marshal(&self, buf: &mut [u8], pos: &mut usize) -> (r: Result<(), MarshalError>)
        ensures
            marshal_outcome(
                true,
                be16(self.spec_id()),
                old(buf)@,
                *old(pos),
                final(buf)@,
                *final(pos),
                r,
            ),
    {
        marshal_u16(self.id(), buf, pos)
    }

    /// What the front of `input` decodes to as an algorithm.
    pub open spec fn outcome(input: Seq<u8>) -> Result<Alg, UnmarshalError> {
        if input.len() < 2 {
            Err(UnmarshalError::Truncated)
        } else {
            match alg_of_id(from_be16(input)) {
                Some(a) => Ok(a),
                None => Err(UnmarshalError::InvalidValue),
            }
        }
    }

    /// Reads a two-byte identifier; an unknown one is `InvalidValue`.
    pub fn unmarshal(buf: &mut &[u8]) -> (r: Result<Alg, UnmarshalError>)
        ensures
            r == Alg::outcome(old(buf)@),
            r.is_ok() ==> final(buf)@ == old(buf)@.skip(2),
    {
        let id = unmarshal_u16(buf)?;
        match Alg::from_id(id) {
            Some(a) => Ok(a),
            None => Err(UnmarshalError::InvalidValue),
        }
    }
}

/// Every algorithm is found again from its identifier.
pub proof fn lemma_alg_id_round_trip(a: Alg)
    ensures
        alg_of_id(a.spec_id()) == Some(a),
{
}

} // verus!
