use vstd::prelude::*;
use crate::error::Error;

verus! {

/// The big-endian value of two bytes.
pub open spec fn be16(b0: u8, b1: u8) -> u16 {
    (b0 as int * 0x100 + b1 as int) as u16
}

/// The big-endian value of four bytes.
pub open spec fn be32(b0: u8, b1: u8, b2: u8, b3: u8) -> u32 {
    (b0 as int * 0x1000000 + b1 as int * 0x10000 + b2 as int * 0x100 + b3 as int) as u32
}

/// Reads `n` bytes off the front of `s`.
pub open spec fn parse_bytes(s: Seq<u8>, n: nat) -> Result<(Seq<u8>, Seq<u8>), Error> {
    if n <= s.len() {
        Ok((s.take(n as int), s.skip(n as int)))
    } else {
        Err(Error::UnexpectedEnd)
    }
}

/// Reads one byte off the front of `s`.
pub open spec fn parse_u8(s: Seq<u8>) -> Result<(u8, Seq<u8>), Error> {
    if 1 <= s.len() {
        Ok((s[0], s.skip(1)))
    } else {
        Err(Error::UnexpectedEnd)
    }
}

/// Reads a big-endian `u16` off the front of `s`.
pub open spec fn parse_u16(s: Seq<u8>) -> Result<(u16, Seq<u8>), Error> {
    if 2 <= s.len() {
        Ok((be16(s[0], s[1]), s.skip(2)))
    } else {
        Err(Error::UnexpectedEnd)
    }
}

/// Reads a big-endian `u32` off the front of `s`.
pub open spec fn parse_u32(s: Seq<u8>) -> Result<(u32, Seq<u8>), Error> {
    if 4 <= s.len() {
        Ok((be32(s[0], s[1], s[2], s[3]), s.skip(4)))
    } else {
        Err(Error::UnexpectedEnd)
    }
}

/// `r` and the reader's remaining bytes `after` are what the spec-level parse `p` gives.
pub open spec fn outcome<T>(p: Result<(T, Seq<u8>), Error>, r: Result<T, Error>, after: Seq<u8>) -> bool {
    match p {
        Ok((v, rest)) => r == Ok::<T, Error>(v) && after == rest,
        Err(e) => r == Err::<T, Error>(e),
    }
}

/// An unsigned integer of fixed width that is read big-endian.
pub trait ByteSize: Sized {
    /// How many bytes the value takes on the wire.
    spec fn spec_width() -> nat;

    /// The value that `bytes` encode, big-endian.
    spec fn spec_read(bytes: Seq<u8>) -> Self;

    fn width() -> (r: usize)
        ensures
            r as nat == Self::spec_width(),
            1 <= r <= 4,
    ;

    fn read(bytes: &[u8]) -> (r: Self)
        requires
            bytes@.len() == Self::spec_width(),
        ensures
            r == Self::spec_read(bytes@),
    ;
}

impl ByteSize for u8 {
    open spec fn spec_width() -> nat {
        1
    }

    open spec fn spec_read(bytes: Seq<u8>) -> u8 {
        bytes[0]
    }

    fn width() -> (r: usize) {
        1
    }

    fn read(bytes: &[u8]) -> (r: u8) {
        bytes[0]
    }
}

impl ByteSize for u16 {
    open spec fn spec_width() -> nat {
        2
    }

    open spec fn spec_read(bytes: Seq<u8>) -> u16 {
        be16(bytes[0], bytes[1])
    }

    fn width() -> (r: usize) {
        2
    }

    fn read(bytes: &[u8]) -> (r: u16) {
        (bytes[0] as u16) * 0x100 + bytes[1] as u16
    }
}

impl ByteSize for u32 {
    open spec fn spec_width() -> nat {
        4
    }

    open spec fn spec_read(bytes: Seq<u8>) -> u32 {
        be32(bytes[0], bytes[1], bytes[2], bytes[3])
    }

    fn width() -> (r: usize) {
        4
    }

    fn read(bytes: &[u8]) -> (r: u32) {
        (bytes[0] as u32) * 0x1000000 + (bytes[1] as u32) * 0x10000 + (bytes[2] as u32) * 0x100
            + bytes[3] as u32
    }
}

/// A byte buffer with a read cursor. Its view is the bytes not yet read.
pub struct ByteReader {
    buffer: Vec<u8>,
    ptr: usize,
}

impl View for ByteReader {
    type V = Seq<u8>;

    closed spec fn view(&self) -> Seq<u8> {
        self.buffer@.skip(self.ptr as int)
    }
}

impl ByteReader {
    #[verifier::type_invariant]
    spec fn inv(&self) -> bool {
        self.ptr <= self.buffer.len()
    }

    /// A reader positioned at the start of `buffer`.
    pub fn from(buffer: Vec<u8>) -> (r: ByteReader)
        ensures
            r@ == buffer@,
    {
        let r = ByteReader { buffer, ptr: 0 };
        assert(r.buffer@.skip(0) =~= r.buffer@);
        r
    }

    /// Whether every byte has been read.
    pub fn is_empty(&self) -> (r: bool)
        ensures
            r == (self@.len() == 0),
    {
        proof {
            use_type_invariant(self);
        }
        self.ptr >= self.buffer.len()
    }

    /// How many bytes are left to read.
    pub fn remaining(&self) -> (r: usize)
        ensures
            r == self@.len(),
    {
        proof {
            use_type_invariant(self);
        }
        self.buffer.len() - self.ptr
    }

    /// Takes `size` bytes, or all that are left when `size` is `usize::MAX`.
    pub fn take_bytes(&mut self, size: usize) -> (r: Result<&[u8], Error>)
        ensures
            size == usize::MAX ==> (r matches Ok(b) && b@ == old(self)@ && final(self)@.len() == 0),
            r is Err ==> final(self)@ == old(self)@,
            size < usize::MAX ==> outcome(
                parse_bytes(old(self)@, size as nat),
                match r { Ok(b) => Ok::<Seq<u8>, Error>(b@), Err(e) => Err(e) },
                final(self)@,
            ),
    {
        proof {
            use_type_invariant(&*self);
        }
        let max_request = self.buffer.len() - self.ptr;
        let request = if size == usize::MAX { max_request } else { size };
        if request > max_request {
            return Err(Error::UnexpectedEnd);
        }
        let previous = self.ptr;
        self.ptr = self.ptr + request;
        let bytes = vstd::slice::slice_subrange(self.buffer.as_slice(), previous, self.ptr);
        assert(bytes@ =~= old(self)@.take(request as int));
        assert(self@ =~= old(self)@.skip(request as int));
        Ok(bytes)
    }

    /// Takes exactly `size` bytes.
    pub fn take_exact(&mut self, size: usize) -> (r: Result<&[u8], Error>)
        ensures
            r is Err ==> final(self)@ == old(self)@,
            outcome(
                parse_bytes(old(self)@, size as nat),
                match r { Ok(b) => Ok::<Seq<u8>, Error>(b@), Err(e) => Err(e) },
                final(self)@,
            ),
    {
        proof {
            use_type_invariant(&*self);
        }
        if size > self.buffer.len() - self.ptr {
            return Err(Error::UnexpectedEnd);
        }
        let previous = self.ptr;
        self.ptr = self.ptr + size;
        let bytes = vstd::slice::slice_subrange(self.buffer.as_slice(), previous, self.ptr);
        assert(bytes@ =~= old(self)@.take(size as int));
        assert(self@ =~= old(self)@.skip(size as int));
        Ok(bytes)
    }

    /// Reads one big-endian integer of `T`'s width.
    pub fn take<T: ByteSize>(&mut self) -> (r: Result<T, Error>)
        ensures
            match r {
                Ok(v) => old(self)@.len() >= T::spec_width() && v == T::spec_read(old(self)@.take(T::spec_width() as int))
                    && final(self)@ == old(self)@.skip(T::spec_width() as int),
                Err(e) => e == Error::UnexpectedEnd && old(self)@.len() < T::spec_width()
                    && final(self)@ == old(self)@,
            },
    {
        let width = T::width();
        let bytes = self.take_bytes(width)?;
        let v = T::read(bytes);
        Ok(v)
    }

    /// Reads one byte.
    pub fn take_u8(&mut self) -> (r: Result<u8, Error>)
        ensures
            r is Err ==> final(self)@ == old(self)@,
            outcome(parse_u8(old(self)@), r, final(self)@),
    {
        self.take::<u8>()
    }

    /// Reads a big-endian `u16`.
    pub fn take_u16(&mut self) -> (r: Result<u16, Error>)
        ensures
            r is Err ==> final(self)@ == old(self)@,
            outcome(parse_u16(old(self)@), r, final(self)@),
    {
        self.take::<u16>()
    }

    /// Reads a big-endian `u32`.
    pub fn take_u32(&mut self) -> (r: Result<u32, Error>)
        ensures
            r is Err ==> final(self)@ == old(self)@,
            outcome(parse_u32(old(self)@), r, final(self)@),
    {
        self.take::<u32>()
    }

    /// Every byte not yet read.
    pub fn deplete(self) -> (r: Vec<u8>)
        ensures
            r@ == self@,
    {
        proof {
            use_type_invariant(&self);
        }
        let mut out: Vec<u8> = Vec::new();
        let mut i: usize = self.ptr;
        while i < self.buffer.len()
            invariant
                self.ptr <= i <= self.buffer.len(),
                out@ == self.buffer@.subrange(self.ptr as int, i as int),
            decreases self.buffer.len() - i,
        {
            out.push(self.buffer[i]);
            i = i + 1;
            assert(out@ =~= self.buffer@.subrange(self.ptr as int, i as int));
        }
        assert(out@ =~= self@);
        out
    }
}

} // verus!
