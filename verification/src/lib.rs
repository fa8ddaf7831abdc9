//! Wire formats of the Minecraft protocol: variable-length integers,
//! fixed-width primitives, packed block positions, NBT compounds and the
//! framing of incoming packets.
use vstd::prelude::*;

pub mod be;
pub mod leb;
pub mod var_int;
pub mod var_long;
pub mod primitive;
pub mod decode;
pub mod block_pos;
pub mod nbt;
pub mod other;

verus! {

/// The largest packet length the protocol allows.
pub const MAX_PACKET_SIZE: i32 = 2097152;

/// Packets whose data is at least this many bytes long are compressed; a
/// negative threshold turns compression off.
#[derive(Clone, Copy, PartialEq, Eq, PartialOrd, Ord, Hash, Debug)]
pub struct CompressionThreshold(pub i32);

impl Default for CompressionThreshold {
    fn default() -> (t: Self)
        ensures
            t.0 == -1,
    {
        CompressionThreshold(-1)
    }
}

/// Why a value could not be read from its encoding.
#[derive(Copy, Clone, PartialEq, Eq, Debug)]
pub enum DecodeError {
    /// The input ended in the middle of the value.
    UnexpectedEnd,
    /// A variable-length integer runs on past its longest allowed encoding.
    VarIntTooLarge,
    /// A boolean byte other than `0` or `1`.
    InvalidBool(u8),
    /// A compound key that is not valid UTF-8.
    InvalidKey,
}

/// A value with a byte encoding.
pub trait Encode {
    /// The bytes that encode `self`.
    spec fn encoding(&self) -> Seq<u8>;

    /// Appends the encoding of `self` to `w`.
    fn encode(&self, w: &mut Vec<u8>)
        ensures
            final(w)@ == old(w)@ + self.encoding(),
    ;
}

/// A value that can be read back from its byte encoding.
pub trait Decode: Sized {
    /// Reading a value from the start of `input`: the outcome, and how many
    /// bytes the reader has consumed when it stops (on success or failure).
    /// A type that does not state its decoding is taken to fail at once.
    open spec fn decoding(input: Seq<u8>) -> (Result<Self, DecodeError>, nat) {
        (Err(DecodeError::UnexpectedEnd), 0)
    }

    /// Inputs on which reading stays within the input.
    /// Reads a value from the start of `r` and advances `r` past what was read.
    fn decode(r: &mut &[u8]) -> (res: Result<Self, DecodeError>)
        ensures
            res == Self::decoding(old(r)@).0,
            Self::decoding(old(r)@).1 <= old(r)@.len(),
            final(r)@ == old(r)@.skip(Self::decoding(old(r)@).1 as int),
    ;
}

} // verus!
