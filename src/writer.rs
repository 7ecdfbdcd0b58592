use vstd::prelude::*;
use crate::reader::{be16, be32};

verus! {

/// The two bytes of `v`, big-endian.
pub open spec fn bytes16(v: u16) -> Seq<u8> {
    seq![(v / 0x100) as u8, (v % 0x100) as u8]
}

/// The four bytes of `v`, big-endian.
pub open spec fn bytes32(v: u32) -> Seq<u8> {
    seq![(v / 0x1000000) as u8, (v / 0x10000 % 0x100) as u8, (v / 0x100 % 0x100) as u8, (v % 0x100) as u8]
}

/// Reading back the two bytes written for `v` gives `v`.
pub proof fn lemma_bytes16(v: u16)
    ensures
        be16(bytes16(v)[0], bytes16(v)[1]) == v,
        bytes16(v).len() == 2,
{
}

/// Reading back the four bytes written for `v` gives `v`.
pub proof fn lemma_bytes32(v: u32)
    ensures
        be32(bytes32(v)[0], bytes32(v)[1], bytes32(v)[2], bytes32(v)[3]) == v,
        bytes32(v).len() == 4,
{
}

/// A value with a fixed big-endian encoding.
pub trait Writeable: Sized {
    /// The bytes that `write` appends.
    spec fn spec_bytes(&self) -> Seq<u8>;

    fn write(&self, writer: &mut ByteWriter)
        ensures
            final(writer)@ == old(writer)@ + self.spec_bytes(),
    ;
}

impl Writeable for u8 {
    open spec fn spec_bytes(&self) -> Seq<u8> {
        seq![*self]
    }

    fn write(&self, writer: &mut ByteWriter) {
        writer.write_byte(*self);
    }
}

impl Writeable for u16 {
    open spec fn spec_bytes(&self) -> Seq<u8> {
        bytes16(*self)
    }

    fn write(&self, writer: &mut ByteWriter) {
        writer.write_byte((*self / 0x100) as u8);
        writer.write_byte((*self % 0x100) as u8);
        assert(writer@ =~= old(writer)@ + bytes16(*self));
    }
}

impl Writeable for u32 {
    open spec fn spec_bytes(&self) -> Seq<u8> {
        bytes32(*self)
    }

    fn write(&self, writer: &mut ByteWriter) {
        writer.write_byte((*self / 0x1000000) as u8);
        writer.write_byte((*self / 0x10000 % 0x100) as u8);
        writer.write_byte((*self / 0x100 % 0x100) as u8);
        writer.write_byte((*self % 0x100) as u8);
        assert(writer@ =~= old(writer)@ + bytes32(*self));
    }
}

/// An append-only byte buffer. Its view is the bytes written so far.
pub struct ByteWriter {
    buffer: Vec<u8>,
}

impl View for ByteWriter {
    type V = Seq<u8>;

    closed spec fn view(&self) -> Seq<u8> {
        self.buffer@
    }
}

impl ByteWriter {
    /// An empty writer.
    pub fn new() -> (r: ByteWriter)
        ensures
            r@ == Seq::<u8>::empty(),
    {
        ByteWriter { buffer: Vec::new() }
    }

    /// Appends one byte.
    pub fn write_byte(&mut self, byte: u8)
        ensures
            final(self)@ == old(self)@.push(byte),
    {
        self.buffer.push(byte);
    }

    /// Appends the big-endian encoding of `data`.
    pub fn write<W: Writeable>(&mut self, data: W)
        ensures
            final(self)@ == old(self)@ + data.spec_bytes(),
    {
        data.write(self);
    }

    /// Appends `bytes` as they are.
    pub fn write_bytes(&mut self, bytes: &[u8])
        ensures
            final(self)@ == old(self)@ + bytes@,
    {
        let mut i: usize = 0;
        while i < bytes.len()
            invariant
                i <= bytes@.len(),
                self@ == old(self)@ + bytes@.take(i as int),
            decreases bytes@.len() - i,
        {
            self.write_byte(bytes[i]);
            i = i + 1;
            assert(self@ =~= old(self)@ + bytes@.take(i as int));
        }
        assert(bytes@.take(i as int) =~= bytes@);
    }

    /// How many bytes have been written.
    pub fn len(&self) -> (r: usize)
        ensures
            r == self@.len(),
    {
        self.buffer.len()
    }

    /// The bytes written so far.
    pub fn into_bytes(self) -> (r: Vec<u8>)
        ensures
            r@ == self@,
    {
        self.buffer
    }
}

} // verus!
