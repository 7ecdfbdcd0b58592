use vstd::prelude::*;

verus! {

/// Why decoding or encoding a class file failed.
#[derive(Debug, Clone, Copy, PartialEq, Eq, Structural)]
pub enum Error {
    /// A read went past the end of the buffer.
    UnexpectedEnd,
    /// The header does not start with `0xCAFEBABE`.
    BadMagic { magic: u32 },
    /// A constant pool entry carries an unknown tag byte.
    BadConstantTag { value: u8 },
    /// An instruction starts with a byte that is not a supported opcode.
    UnknownOpcode { value: u8 },
    /// A pool lookup found a constant of another kind than its role asks for:
    /// the tag byte that was expected (0 where several literal kinds would
    /// do, as for a `ConstantValue`) and the one found.
    WrongTag { index: u16, expected: u8, found: u8 },
    /// A pool index is out of range or names an empty slot.
    InvalidIndex { index: u16 },
    /// Bytes that are not valid modified UTF-8, or that name no Unicode scalar.
    BadUtf8,
    /// Bytes are left over after a known attribute was decoded.
    TrailingBytes,
    /// A count, length or pool index does not fit its field on the wire.
    TooLarge,
    /// The structure is inconsistent: a wide constant in the last pool slot,
    /// or an instruction that runs past the end of its code.
    Malformed,
}

/// A result with its success value replaced by that value's view.
pub open spec fn view_result<T: View>(r: Result<T, Error>) -> Result<T::V, Error> {
    match r {
        Ok(v) => Ok(v@),
        Err(e) => Err(e),
    }
}

} // verus!
