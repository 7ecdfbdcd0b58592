use vstd::prelude::*;
use crate::access::{
    MethodParameterAccessFlags, decode_flags, encode_flags, flags_of, lemma_flags_round_trip, mask_of,
};
use crate::code::{
    ClassRef, Instruction, InstructionV, all_wf, code_len, code_need, code_texts, decode_code,
    decode_instructions, encode_instructions, encodes_code, instructions_view,
};
use crate::constant_pool::{
    ConstantPool, Cp, CpInfo, class_name_at, entry_at, extends, lemma_extends_pushed,
    lemma_extends_refl, lemma_extends_trans, lemma_lookups_stable, lemma_parse_u16, lemma_parse_u32, pushed,
    utf8_at, wrong_tag, text_fits, texts_fit,
};
use crate::error::{Error, view_result};
use crate::list::{
    Element, Pool, all_canonical, all_texts, seq_need, seq_size, lemma_parse_list_all, decode_list, encode_list, encodes_elem, flatten, lemma_flatten_push,
    parse_list, seq_result, seq_view,
};
use crate::reader::{ByteReader, outcome, parse_bytes, parse_u16, parse_u32, parse_u8};
use crate::writer::{ByteWriter, bytes16, bytes32};

verus! {

/// The value of a `ConstantValue` attribute; `Float` and `Double` are IEEE 754 bit patterns.
pub enum ConstV {
    Integer(u32),
    Long(u64),
    Float(u32),
    Double(u64),
    String(Seq<char>),
}

/// The value of an exception table entry.
pub struct ExceptionV {
    pub start_pc: u16,
    pub end_pc: u16,
    pub handler_pc: u16,
    pub catch_type: Option<Seq<char>>,
}

/// The value of a local variable table entry.
pub struct LocalVariableV {
    pub start_pc: u16,
    pub length: u16,
    pub name: Seq<char>,
    pub descriptor: Seq<char>,
    pub index: u16,
}

/// The value of a method parameter entry.
pub struct ParameterV {
    pub name: Option<Seq<char>>,
    pub access_flags: Seq<MethodParameterAccessFlags>,
}

/// The value of a `Code` attribute.
pub struct CodeV {
    pub max_stack: u16,
    pub max_locals: u16,
    pub code: Seq<InstructionV>,
    pub exception_table: Seq<ExceptionV>,
    pub attributes: Seq<AttributeV>,
}

/// The value of an attribute.
pub enum AttributeV {
    ConstantValue(ConstV),
    Code(CodeV),
    SourceFile(Seq<char>),
    LineNumberTable(Seq<(u16, u16)>),
    LocalVariableTable(Seq<LocalVariableV>),
    MethodParameters(Seq<ParameterV>),
    Synthetic,
    Deprecated,
    Signature(Seq<char>),
    Unknown(Seq<char>, Seq<u8>),
}

/// The literal that the constant at slot `i` holds, for the kinds that a
/// `ConstantValue` attribute may name.
pub open spec fn constant_value_at(p: Pool, i: u16) -> Result<ConstV, Error> {
    match entry_at(p, i) {
        Err(e) => Err(e),
        Ok(Cp::Integer(v)) => Ok(ConstV::Integer(v)),
        Ok(Cp::Long(v)) => Ok(ConstV::Long(v)),
        Ok(Cp::Float(v)) => Ok(ConstV::Float(v)),
        Ok(Cp::Double(v)) => Ok(ConstV::Double(v)),
        Ok(Cp::String(si)) => match utf8_at(p, si) {
            Err(e) => Err(e),
            Ok(t) => Ok(ConstV::String(t)),
        },
        Ok(c) => Err(wrong_tag(i, 0, c)),
    }
}

/// One line number entry: start pc, then line number.
pub open spec fn line_number_elem(s: Seq<u8>, p: Pool) -> Result<((u16, u16), Seq<u8>), Error> {
    match parse_u16(s) {
        Err(e) => Err(e),
        Ok((a, s1)) => match parse_u16(s1) {
            Err(e) => Err(e),
            Ok((b, s2)) => Ok(((a, b), s2)),
        },
    }
}

/// One exception table entry; a catch type index of 0 means "any".
pub open spec fn exception_elem(s: Seq<u8>, p: Pool) -> Result<(ExceptionV, Seq<u8>), Error> {
    match parse_u16(s) {
        Err(e) => Err(e),
        Ok((start_pc, s1)) => match parse_u16(s1) {
            Err(e) => Err(e),
            Ok((end_pc, s2)) => match parse_u16(s2) {
                Err(e) => Err(e),
                Ok((handler_pc, s3)) => match parse_u16(s3) {
                    Err(e) => Err(e),
                    Ok((c, s4)) => if c == 0 {
                        Ok((ExceptionV { start_pc, end_pc, handler_pc, catch_type: None }, s4))
                    } else {
                        match class_name_at(p, c) {
                            Err(e) => Err(e),
                            Ok(t) => Ok((ExceptionV { start_pc, end_pc, handler_pc, catch_type: Some(t) }, s4)),
                        }
                    },
                },
            },
        },
    }
}

/// One local variable entry: start pc, length, name (resolved before the
/// descriptor index is read), descriptor, slot index.
pub open spec fn local_variable_elem(s: Seq<u8>, p: Pool) -> Result<(LocalVariableV, Seq<u8>), Error> {
    match parse_u16(s) {
        Err(e) => Err(e),
        Ok((start_pc, s1)) => match parse_u16(s1) {
            Err(e) => Err(e),
            Ok((length, s2)) => match parse_u16(s2) {
                Err(e) => Err(e),
                Ok((ni, s3)) => match utf8_at(p, ni) {
                    Err(e) => Err(e),
                    Ok(name) => match parse_u16(s3) {
                        Err(e) => Err(e),
                        Ok((di, s4)) => match utf8_at(p, di) {
                            Err(e) => Err(e),
                            Ok(descriptor) => match parse_u16(s4) {
                                Err(e) => Err(e),
                                Ok((index, s5)) => Ok(
                                    (LocalVariableV { start_pc, length, name, descriptor, index }, s5),
                                ),
                            },
                        },
                    },
                },
            },
        },
    }
}

/// One method parameter entry: a name index (0 for none), then access flags.
pub open spec fn parameter_elem(s: Seq<u8>, p: Pool) -> Result<(ParameterV, Seq<u8>), Error> {
    match parse_u16(s) {
        Err(e) => Err(e),
        Ok((ni, s1)) => match (if ni == 0 {
            Ok(None)
        } else {
            match utf8_at(p, ni) {
                Err(e) => Err(e),
                Ok(t) => Ok(Some(t)),
            }
        }) {
            Err(e) => Err(e),
            Ok(name) => match parse_u16(s1) {
                Err(e) => Err(e),
                Ok((bits, s2)) => Ok((ParameterV { name, access_flags: flags_of(bits) }, s2)),
            },
        },
    }
}

pub open spec fn line_number_parser() -> spec_fn(Seq<u8>, Pool) -> Result<((u16, u16), Seq<u8>), Error> {
    |s: Seq<u8>, q: Pool| line_number_elem(s, q)
}

pub open spec fn exception_parser() -> spec_fn(Seq<u8>, Pool) -> Result<(ExceptionV, Seq<u8>), Error> {
    |s: Seq<u8>, q: Pool| exception_elem(s, q)
}

pub open spec fn local_variable_parser() -> spec_fn(Seq<u8>, Pool) -> Result<(LocalVariableV, Seq<u8>), Error> {
    |s: Seq<u8>, q: Pool| local_variable_elem(s, q)
}

pub open spec fn parameter_parser() -> spec_fn(Seq<u8>, Pool) -> Result<(ParameterV, Seq<u8>), Error> {
    |s: Seq<u8>, q: Pool| parameter_elem(s, q)
}

/// A two-byte count, then that many elements.
pub open spec fn parse_counted<T>(
    s: Seq<u8>,
    p: Pool,
    elem: spec_fn(Seq<u8>, Pool) -> Result<(T, Seq<u8>), Error>,
) -> Result<(Seq<T>, Seq<u8>), Error> {
    match parse_u16(s) {
        Err(e) => Err(e),
        Ok((n, s1)) => parse_list(s1, n as nat, p, elem),
    }
}

/// `a`, provided that nothing is left of the attribute's bytes.
pub open spec fn finish(rest: Seq<u8>, a: AttributeV) -> Result<AttributeV, Error> {
    if rest.len() == 0 {
        Ok(a)
    } else {
        Err(Error::TrailingBytes)
    }
}

/// Decodes the body of the attribute named `name`: each supported name has
/// its layout, and must use up `info`; any other name gives `Unknown`.
pub open spec fn decode_attribute(name: Seq<char>, info: Seq<u8>, p: Pool) -> Result<AttributeV, Error>
    decreases info.len(), 1nat,
{
    if name == "ConstantValue"@ {
        match parse_u16(info) {
            Err(e) => Err(e),
            Ok((i, r)) => match constant_value_at(p, i) {
                Err(e) => Err(e),
                Ok(c) => finish(r, AttributeV::ConstantValue(c)),
            },
        }
    } else if name == "Code"@ {
        decode_code_body(info, p)
    } else if name == "SourceFile"@ {
        match parse_u16(info) {
            Err(e) => Err(e),
            Ok((i, r)) => match utf8_at(p, i) {
                Err(e) => Err(e),
                Ok(t) => finish(r, AttributeV::SourceFile(t)),
            },
        }
    } else if name == "LineNumberTable"@ {
        match parse_counted(info, p, line_number_parser()) {
            Err(e) => Err(e),
            Ok((v, r)) => finish(r, AttributeV::LineNumberTable(v)),
        }
    } else if name == "LocalVariableTable"@ {
        match parse_counted(info, p, local_variable_parser()) {
            Err(e) => Err(e),
            Ok((v, r)) => finish(r, AttributeV::LocalVariableTable(v)),
        }
    } else if name == "MethodParameters"@ {
        match parse_u8(info) {
            Err(e) => Err(e),
            Ok((n, s1)) => match parse_list(s1, n as nat, p, parameter_parser()) {
                Err(e) => Err(e),
                Ok((v, r)) => finish(r, AttributeV::MethodParameters(v)),
            },
        }
    } else if name == "Synthetic"@ {
        finish(info, AttributeV::Synthetic)
    } else if name == "Deprecated"@ {
        finish(info, AttributeV::Deprecated)
    } else if name == "Signature"@ {
        match parse_u16(info) {
            Err(e) => Err(e),
            Ok((i, r)) => match utf8_at(p, i) {
                Err(e) => Err(e),
                Ok(t) => finish(r, AttributeV::Signature(t)),
            },
        }
    } else {
        Ok(AttributeV::Unknown(name, info))
    }
}

/// Decodes the body of a `Code` attribute: limits, the code array, the
/// exception table and the nested attributes.
pub open spec fn decode_code_body(info: Seq<u8>, p: Pool) -> Result<AttributeV, Error>
    decreases info.len(), 0nat,
{
    match parse_u16(info) {
        Err(e) => Err(e),
        Ok((max_stack, s1)) => match parse_u16(s1) {
            Err(e) => Err(e),
            Ok((max_locals, s2)) => match parse_u32(s2) {
                Err(e) => Err(e),
                Ok((n, s3)) => match parse_bytes(s3, n as nat) {
                    Err(e) => Err(e),
                    Ok((bytes, s4)) => match decode_code(bytes, p) {
                        Err(e) => Err(e),
                        Ok(code) => match parse_counted(s4, p, exception_parser()) {
                            Err(e) => Err(e),
                            Ok((exception_table, s5)) => match parse_u16(s5) {
                                Err(e) => Err(e),
                                Ok((count, s6)) => if s6.len() < info.len() {
                                    match decode_attributes(s6, count as nat, p) {
                                        Err(e) => Err(e),
                                        Ok((attributes, s7)) => finish(
                                            s7,
                                            AttributeV::Code(
                                                CodeV {
                                                    max_stack,
                                                    max_locals,
                                                    code,
                                                    exception_table,
                                                    attributes,
                                                },
                                            ),
                                        ),
                                    }
                                } else {
                                    Err(Error::Malformed)
                                },
                            },
                        },
                    },
                },
            },
        },
    }
}

/// Reads one attribute: a name index, a four-byte length and that many
/// bytes, decoded by `decode_attribute`.
pub open spec fn decode_one_attribute(s: Seq<u8>, p: Pool) -> Result<(AttributeV, Seq<u8>), Error>
    decreases s.len(), 0nat,
{
    match parse_raw_attribute(s) {
        Err(e) => Err(e),
        Ok(((ni, info), s1)) => if info.len() < s.len() {
            match utf8_at(p, ni) {
                Err(e) => Err(e),
                Ok(name) => match decode_attribute(name, info, p) {
                    Err(e) => Err(e),
                    Ok(a) => Ok((a, s1)),
                },
            }
        } else {
            Err(Error::Malformed)
        },
    }
}

/// Reads `n` attributes.
pub open spec fn decode_attributes(s: Seq<u8>, n: nat, p: Pool) -> Result<(Seq<AttributeV>, Seq<u8>), Error>
    decreases s.len(), n,
{
    if n == 0 {
        Ok((Seq::empty(), s))
    } else {
        match decode_one_attribute(s, p) {
            Err(e) => Err(e),
            Ok((a, s1)) => if s1.len() < s.len() {
                match decode_attributes(s1, (n - 1) as nat, p) {
                    Err(e) => Err(e),
                    Ok((rest, s2)) => Ok((seq![a] + rest, s2)),
                }
            } else {
                Err(Error::Malformed)
            },
        }
    }
}

/// An attribute as it stands on the wire: name index, length, info bytes.
pub open spec fn parse_raw_attribute(s: Seq<u8>) -> Result<((u16, Seq<u8>), Seq<u8>), Error> {
    match parse_u16(s) {
        Err(e) => Err(e),
        Ok((ni, s1)) => match parse_u32(s1) {
            Err(e) => Err(e),
            Ok((n, s2)) => match parse_bytes(s2, n as nat) {
                Err(e) => Err(e),
                Ok((info, s3)) => Ok(((ni, info), s3)),
            },
        },
    }
}


/// An entry of a `LineNumberTable` attribute.
#[derive(Debug, Clone, Copy, PartialEq, Eq)]
pub struct LineNumberTableElement {
    pub start_pc: u16,
    pub line_number: u16,
}

/// An entry of a `Code` attribute's exception table; `catch_type` is `None`
/// for a handler that catches everything.
#[derive(Debug, Clone, PartialEq, Eq)]
pub struct ExceptionTableElement {
    pub start_pc: u16,
    pub end_pc: u16,
    pub handler_pc: u16,
    pub catch_type: Option<String>,
}

/// An entry of a `LocalVariableTable` attribute.
#[derive(Debug, Clone, PartialEq, Eq)]
pub struct LocalVariableTableElement {
    pub start_pc: u16,
    pub length: u16,
    pub name: String,
    pub descriptor: String,
    pub index: u16,
}

/// An entry of a `MethodParameters` attribute.
#[derive(Debug, Clone, PartialEq, Eq)]
pub struct MethodParameter {
    pub name: Option<String>,
    pub access_flags: Vec<MethodParameterAccessFlags>,
}

pub open spec fn opt_text(o: Option<String>) -> Option<Seq<char>> {
    match o {
        Some(s) => Some(s@),
        None => None,
    }
}

impl View for LineNumberTableElement {
    type V = (u16, u16);

    open spec fn view(&self) -> (u16, u16) {
        (self.start_pc, self.line_number)
    }
}

impl View for ExceptionTableElement {
    type V = ExceptionV;

    open spec fn view(&self) -> ExceptionV {
        ExceptionV {
            start_pc: self.start_pc,
            end_pc: self.end_pc,
            handler_pc: self.handler_pc,
            catch_type: opt_text(self.catch_type),
        }
    }
}

impl View for LocalVariableTableElement {
    type V = LocalVariableV;

    open spec fn view(&self) -> LocalVariableV {
        LocalVariableV {
            start_pc: self.start_pc,
            length: self.length,
            name: self.name@,
            descriptor: self.descriptor@,
            index: self.index,
        }
    }
}

impl View for MethodParameter {
    type V = ParameterV;

    open spec fn view(&self) -> ParameterV {
        ParameterV { name: opt_text(self.name), access_flags: self.access_flags@ }
    }
}

proof fn lemma_two_u16(a: u16, b: u16, rest: Seq<u8>)
    ensures
        parse_u16(bytes16(a) + bytes16(b) + rest) == Ok::<(u16, Seq<u8>), Error>((a, bytes16(b) + rest)),
        parse_u16(bytes16(b) + rest) == Ok::<(u16, Seq<u8>), Error>((b, rest)),
{
    assert(bytes16(a) + bytes16(b) + rest =~= bytes16(a) + (bytes16(b) + rest));
    lemma_parse_u16(a, bytes16(b) + rest);
    lemma_parse_u16(b, rest);
}

/// `p` after a class name is interned: its `Utf8`, then a `Class` naming it.
pub open spec fn class_pushed(p: Pool, name: Seq<char>) -> Pool {
    pushed(pushed(p, Cp::Utf8(name)), Cp::Class(p.len() as u16))
}

/// Interns a class name as `Utf8` then `Class`; the index is never 0.
fn intern_class(name: &String, pool: &mut ConstantPool) -> (r: Result<u16, Error>)
    ensures
        r is Ok ==> (crate::constant_pool::linked(old(pool)@) ==> crate::constant_pool::linked(final(pool)@)),
        r is Ok <==> old(pool)@.len() + 2 <= 0xFFFF,
        match r {
            Ok(i) => extends(final(pool)@, old(pool)@) && final(pool)@.len() == old(pool)@.len() + 2
                && class_name_at(final(pool)@, i) == Ok::<Seq<char>, Error>(name@) && i != 0
                && final(pool)@ == class_pushed(old(pool)@, name@)
                && i as int == old(pool)@.len() + 1
                && texts_fit(final(pool)@) == (texts_fit(old(pool)@) && text_fits(name@)),
            Err(e) => e == Error::TooLarge && final(pool)@ == old(pool)@,
        },
{
    let r = ClassRef(name.clone()).encode(pool);
    proof {
        use_type_invariant(&*pool);
    }
    r
}

/// Interns a text as `Utf8`; the index is never 0.
fn intern_utf8(text: &String, pool: &mut ConstantPool) -> (r: Result<u16, Error>)
    ensures
        r is Ok ==> (crate::constant_pool::linked(old(pool)@) ==> crate::constant_pool::linked(final(pool)@)),
        r is Ok <==> old(pool)@.len() + 1 <= 0xFFFF,
        match r {
            Ok(i) => extends(final(pool)@, old(pool)@) && final(pool)@.len() == old(pool)@.len() + 1
                && utf8_at(final(pool)@, i) == Ok::<Seq<char>, Error>(text@) && i != 0
                && final(pool)@ == pushed(old(pool)@, Cp::Utf8(text@))
                && i as int == old(pool)@.len()
                && texts_fit(final(pool)@) == (texts_fit(old(pool)@) && text_fits(text@)),
            Err(e) => e == Error::TooLarge && final(pool)@ == old(pool)@,
        },
{
    proof {
        use_type_invariant(&*pool);
        lemma_extends_pushed(pool@, Cp::Utf8(text@));
    }
    pool.push(CpInfo::Utf8 { string: text.clone() })
}

impl Element for LineNumberTableElement {
    open spec fn parser() -> spec_fn(Seq<u8>, Pool) -> Result<((u16, u16), Seq<u8>), Error> {
        line_number_parser()
    }

    open spec fn need(v: (u16, u16)) -> nat {
        0
    }

    open spec fn size(v: (u16, u16)) -> nat {
        4
    }

    open spec fn texts(v: (u16, u16)) -> bool {
        true
    }

    open spec fn pushes(p: Pool, v: (u16, u16)) -> Pool {
        p
    }

    open spec fn canonical(v: (u16, u16)) -> bool {
        true
    }

    fn decode(reader: &mut ByteReader, pool: &ConstantPool) -> (r: Result<Self, Error>) {
        let start_pc = reader.take_u16()?;
        let line_number = reader.take_u16()?;
        Ok(LineNumberTableElement { start_pc, line_number })
    }

    #[verifier::rlimit(80)]
    fn encode(&self, pool: &mut ConstantPool, writer: &mut ByteWriter) -> (r: Result<(), Error>) {
        proof {
            use_type_invariant(&*pool);
            lemma_extends_refl(pool@);
        }
        let ghost w0 = writer@;
        writer.write(self.start_pc);
        writer.write(self.line_number);
        proof {
            let b = writer@.skip(w0.len() as int);
            assert(b =~= bytes16(self.start_pc) + bytes16(self.line_number));
            assert(writer@.take(w0.len() as int) =~= w0);
            assert forall|q: Pool, rest: Seq<u8>| extends(q, pool@) implies #[trigger] (Self::parser())(b + rest, q)
                == Ok::<((u16, u16), Seq<u8>), Error>((self@, rest)) by {
                lemma_two_u16(self.start_pc, self.line_number, rest);
            }
        }
        Ok(())
    }
}

proof fn lemma_exception_bytes(v: ExceptionV, c: u16, b: Seq<u8>, p: Pool)
    requires
        b == bytes16(v.start_pc) + bytes16(v.end_pc) + bytes16(v.handler_pc) + bytes16(c),
        match v.catch_type {
            None => c == 0,
            Some(t) => c != 0 && class_name_at(p, c) == Ok::<Seq<char>, Error>(t),
        },
    ensures
        encodes_elem(b, v, p, exception_parser()),
{
    assert forall|q: Pool, rest: Seq<u8>| extends(q, p) implies #[trigger] (exception_parser())(b + rest, q)
        == Ok::<(ExceptionV, Seq<u8>), Error>((v, rest)) by {
        let r3 = bytes16(c) + rest;
        let r2 = bytes16(v.handler_pc) + r3;
        let r1 = bytes16(v.end_pc) + r2;
        assert(b + rest =~= bytes16(v.start_pc) + r1);
        lemma_parse_u16(v.start_pc, r1);
        lemma_parse_u16(v.end_pc, r2);
        lemma_parse_u16(v.handler_pc, r3);
        lemma_parse_u16(c, rest);
        lemma_lookups_stable(p, q, c);
    }
}

impl Element for ExceptionTableElement {
    open spec fn parser() -> spec_fn(Seq<u8>, Pool) -> Result<(ExceptionV, Seq<u8>), Error> {
        exception_parser()
    }

    open spec fn need(v: ExceptionV) -> nat {
        if v.catch_type is Some { 2 } else { 0 }
    }

    open spec fn size(v: ExceptionV) -> nat {
        8
    }

    open spec fn texts(v: ExceptionV) -> bool {
        v.catch_type matches Some(t) ==> text_fits(t)
    }

    /// A catch type is interned as its `Utf8`, then the `Class` naming it.
    open spec fn pushes(p: Pool, v: ExceptionV) -> Pool {
        match v.catch_type {
            Some(t) => class_pushed(p, t),
            None => p,
        }
    }

    open spec fn canonical(v: ExceptionV) -> bool {
        true
    }

    fn decode(reader: &mut ByteReader, pool: &ConstantPool) -> (r: Result<Self, Error>) {
        let start_pc = reader.take_u16()?;
        let end_pc = reader.take_u16()?;
        let handler_pc = reader.take_u16()?;
        let c = reader.take_u16()?;
        let catch_type = if c == 0 {
            None
        } else {
            Some(pool.get_class_name(c)?)
        };
        Ok(ExceptionTableElement { start_pc, end_pc, handler_pc, catch_type })
    }

    #[verifier::rlimit(80)]
    fn encode(&self, pool: &mut ConstantPool, writer: &mut ByteWriter) -> (r: Result<(), Error>) {
        proof {
            use_type_invariant(&*pool);
        }
        let ghost at0 = pool@;
        let c: u16 = match &self.catch_type {
            None => {
                proof {
                    lemma_extends_refl(at0);
                }
                0
            },
            Some(t) => intern_class(t, pool)?,
        };
        let ghost w0 = writer@;
        writer.write(self.start_pc);
        writer.write(self.end_pc);
        writer.write(self.handler_pc);
        writer.write(c);
        proof {
            let b = writer@.skip(w0.len() as int);
            assert(writer@.take(w0.len() as int) =~= w0);
            assert(b =~= bytes16(self.start_pc) + bytes16(self.end_pc) + bytes16(self.handler_pc) + bytes16(c));
            lemma_exception_bytes(self@, c, b, pool@);
        }
        Ok(())
    }
}

impl Element for LocalVariableTableElement {
    open spec fn parser() -> spec_fn(Seq<u8>, Pool) -> Result<(LocalVariableV, Seq<u8>), Error> {
        local_variable_parser()
    }

    open spec fn need(v: LocalVariableV) -> nat {
        2
    }

    open spec fn size(v: LocalVariableV) -> nat {
        10
    }

    open spec fn texts(v: LocalVariableV) -> bool {
        text_fits(v.name) && text_fits(v.descriptor)
    }

    open spec fn pushes(p: Pool, v: LocalVariableV) -> Pool {
        pushed(pushed(p, Cp::Utf8(v.name)), Cp::Utf8(v.descriptor))
    }

    open spec fn canonical(v: LocalVariableV) -> bool {
        true
    }

    fn decode(reader: &mut ByteReader, pool: &ConstantPool) -> (r: Result<Self, Error>) {
        let start_pc = reader.take_u16()?;
        let length = reader.take_u16()?;
        let name_index = reader.take_u16()?;
        let name = pool.get_utf8(name_index)?;
        let descriptor_index = reader.take_u16()?;
        let descriptor = pool.get_utf8(descriptor_index)?;
        let index = reader.take_u16()?;
        Ok(LocalVariableTableElement { start_pc, length, name, descriptor, index })
    }

    #[verifier::rlimit(80)]
    fn encode(&self, pool: &mut ConstantPool, writer: &mut ByteWriter) -> (r: Result<(), Error>) {
        proof {
            use_type_invariant(&*pool);
        }
        if pool.len() as usize + 2 > 0xFFFF {
            return Err(Error::TooLarge);
        }
        let ghost at0 = pool@;
        let ni = intern_utf8(&self.name, pool)?;
        let ghost at1 = pool@;
        let di = intern_utf8(&self.descriptor, pool)?;
        proof {
            lemma_extends_trans(at0, at1, pool@);
            lemma_lookups_stable(at1, pool@, ni);
        }
        let ghost w0 = writer@;
        writer.write(self.start_pc);
        writer.write(self.length);
        writer.write(ni);
        writer.write(di);
        writer.write(self.index);
        proof {
            let b = writer@.skip(w0.len() as int);
            assert(writer@.take(w0.len() as int) =~= w0);
            assert forall|q: Pool, rest: Seq<u8>| extends(q, pool@) implies #[trigger] (Self::parser())(b + rest, q)
                == Ok::<(LocalVariableV, Seq<u8>), Error>((self@, rest)) by {
                assert(b + rest =~= bytes16(self.start_pc) + (bytes16(self.length) + (bytes16(ni) + (bytes16(di) + (bytes16(self.index) + rest)))));
                lemma_parse_u16(self.start_pc, bytes16(self.length) + (bytes16(ni) + (bytes16(di) + (bytes16(self.index) + rest))));
                lemma_parse_u16(self.length, bytes16(ni) + (bytes16(di) + (bytes16(self.index) + rest)));
                lemma_parse_u16(ni, bytes16(di) + (bytes16(self.index) + rest));
                lemma_parse_u16(di, bytes16(self.index) + rest);
                lemma_parse_u16(self.index, rest);
                lemma_lookups_stable(pool@, q, ni);
                lemma_lookups_stable(pool@, q, di);
            }
        }
        Ok(())
    }
}

impl Element for MethodParameter {
    open spec fn parser() -> spec_fn(Seq<u8>, Pool) -> Result<(ParameterV, Seq<u8>), Error> {
        parameter_parser()
    }

    open spec fn need(v: ParameterV) -> nat {
        if v.name is Some { 1 } else { 0 }
    }

    open spec fn size(v: ParameterV) -> nat {
        4
    }

    open spec fn texts(v: ParameterV) -> bool {
        v.name matches Some(t) ==> text_fits(t)
    }

    open spec fn pushes(p: Pool, v: ParameterV) -> Pool {
        match v.name {
            Some(t) => pushed(p, Cp::Utf8(t)),
            None => p,
        }
    }

    open spec fn canonical(v: ParameterV) -> bool {
        flags_of::<MethodParameterAccessFlags>(mask_of(v.access_flags)) == v.access_flags
    }

    fn decode(reader: &mut ByteReader, pool: &ConstantPool) -> (r: Result<Self, Error>) {
        let name_index = reader.take_u16()?;
        let name = if name_index == 0 {
            None
        } else {
            Some(pool.get_utf8(name_index)?)
        };
        let bits = reader.take_u16()?;
        let access_flags = decode_flags(bits);
        Ok(MethodParameter { name, access_flags })
    }

    #[verifier::rlimit(80)]
    fn encode(&self, pool: &mut ConstantPool, writer: &mut ByteWriter) -> (r: Result<(), Error>) {
        proof {
            use_type_invariant(&*pool);
        }
        let ghost at0 = pool@;
        let ni: u16 = match &self.name {
            None => {
                proof {
                    lemma_extends_refl(at0);
                }
                0
            },
            Some(t) => intern_utf8(t, pool)?,
        };
        let bits = encode_flags(self.access_flags.as_slice());
        let ghost w0 = writer@;
        writer.write(ni);
        writer.write(bits);
        proof {
            let b = writer@.skip(w0.len() as int);
            assert(writer@.take(w0.len() as int) =~= w0);
            assert forall|q: Pool, rest: Seq<u8>| extends(q, pool@) && Self::canonical(self@) implies #[trigger] (Self::parser())(b + rest, q)
                == Ok::<(ParameterV, Seq<u8>), Error>((self@, rest)) by {
                lemma_two_u16(ni, bits, rest);
                assert(b =~= bytes16(ni) + bytes16(bits));
                lemma_lookups_stable(pool@, q, ni);
            }
        }
        Ok(())
    }
}


/// The value of a `ConstantValue` attribute: a typed literal. `Float` and
/// `Double` hold IEEE 754 bit patterns.
#[derive(Debug, Clone, PartialEq, Eq)]
pub enum ConstantValue {
    Integer(u32),
    Long(u64),
    Float(u32),
    Double(u64),
    String(String),
}

impl View for ConstantValue {
    type V = ConstV;

    open spec fn view(&self) -> ConstV {
        match self {
            ConstantValue::Integer(v) => ConstV::Integer(*v),
            ConstantValue::Long(v) => ConstV::Long(*v),
            ConstantValue::Float(v) => ConstV::Float(*v),
            ConstantValue::Double(v) => ConstV::Double(*v),
            ConstantValue::String(t) => ConstV::String(t@),
        }
    }
}

/// A method body: stack and local limits, instructions, exception handlers
/// and nested attributes.
#[derive(Debug, PartialEq, Eq)]
pub struct Code {
    pub max_stack: u16,
    pub max_locals: u16,
    pub code: Vec<Instruction>,
    pub exception_table: Vec<ExceptionTableElement>,
    pub attributes: Vec<Attribute>,
}

/// An attribute of a class, field, method or `Code`. Attributes with other
/// names are kept as `Unknown`, with their bytes as they were.
#[derive(Debug, PartialEq, Eq)]
pub enum Attribute {
    ConstantValue(ConstantValue),
    Code(Code),
    SourceFile(String),
    LineNumberTable(Vec<LineNumberTableElement>),
    LocalVariableTable(Vec<LocalVariableTableElement>),
    MethodParameters(Vec<MethodParameter>),
    Synthetic,
    Deprecated,
    Signature(String),
    Unknown { name: String, info: Vec<u8> },
}

/// The value of an attribute.
pub open spec fn attr_view(a: Attribute) -> AttributeV
    decreases a,
{
    match a {
        Attribute::ConstantValue(c) => AttributeV::ConstantValue(c@),
        Attribute::Code(c) => AttributeV::Code(
            CodeV {
                max_stack: c.max_stack,
                max_locals: c.max_locals,
                code: instructions_view(c.code@),
                exception_table: seq_view(c.exception_table@),
                attributes: attrs_view(c.attributes@),
            },
        ),
        Attribute::SourceFile(t) => AttributeV::SourceFile(t@),
        Attribute::LineNumberTable(v) => AttributeV::LineNumberTable(seq_view(v@)),
        Attribute::LocalVariableTable(v) => AttributeV::LocalVariableTable(seq_view(v@)),
        Attribute::MethodParameters(v) => AttributeV::MethodParameters(seq_view(v@)),
        Attribute::Synthetic => AttributeV::Synthetic,
        Attribute::Deprecated => AttributeV::Deprecated,
        Attribute::Signature(t) => AttributeV::Signature(t@),
        Attribute::Unknown { name, info } => AttributeV::Unknown(name@, info@),
    }
}

/// The values of a sequence of attributes.
pub open spec fn attrs_view(s: Seq<Attribute>) -> Seq<AttributeV>
    decreases s,
{
    if s.len() == 0 {
        Seq::empty()
    } else {
        seq![attr_view(s[0])] + attrs_view(s.drop_first())
    }
}

impl View for Attribute {
    type V = AttributeV;

    open spec fn view(&self) -> AttributeV {
        attr_view(*self)
    }
}

pub proof fn lemma_attrs_view_push(s: Seq<Attribute>, a: Attribute)
    ensures
        attrs_view(s.push(a)) == attrs_view(s) + seq![attr_view(a)],
        attrs_view(s).len() == s.len(),
    decreases s.len(),
{
    if s.len() == 0 {
        assert(s.push(a).drop_first() =~= Seq::<Attribute>::empty());
        assert(attrs_view(s.push(a)) =~= seq![attr_view(a)] + attrs_view(Seq::<Attribute>::empty()));
    } else {
        lemma_attrs_view_push(s.drop_first(), a);
        assert(s.push(a).drop_first() =~= s.drop_first().push(a));
        assert(attrs_view(s.push(a)) =~= seq![attr_view(s[0])] + attrs_view(s.drop_first().push(a)));
    }
}

/// An attribute as it stands on the wire: a pool index of its name and its bytes.
#[derive(Debug, Clone, PartialEq, Eq)]
pub struct UnresolvedAttribute {
    pub name_index: u16,
    pub info: Vec<u8>,
}

/// Whether two texts are equal.
fn text_equals(a: &str, b: &str) -> (r: bool)
    ensures
        r == (a@ == b@),
{
    let n = a.unicode_len();
    if n != b.unicode_len() {
        return false;
    }
    let mut i: usize = 0;
    while i < n
        invariant
            n == a@.len() == b@.len(),
            i <= n,
            a@.take(i as int) == b@.take(i as int),
        decreases n - i,
    {
        if a.get_char(i) != b.get_char(i) {
            assert(a@[i as int] != b@[i as int]);
            return false;
        }
        assert(a@.take(i + 1) =~= a@.take(i as int).push(a@[i as int]));
        assert(b@.take(i + 1) =~= b@.take(i as int).push(b@[i as int]));
        i = i + 1;
    }
    assert(a@.take(n as int) =~= a@);
    assert(b@.take(n as int) =~= b@);
    true
}

impl UnresolvedAttribute {
    /// Reads an attribute's name index, length and bytes.
    pub fn read(reader: &mut ByteReader) -> (r: Result<UnresolvedAttribute, Error>)
        ensures
            outcome(
                parse_raw_attribute(old(reader)@),
                match r { Ok(a) => Ok::<(u16, Seq<u8>), Error>((a.name_index, a.info@)), Err(e) => Err(e) },
                final(reader)@,
            ),
    {
        let name_index = reader.take_u16()?;
        let length = reader.take_u32()?;
        let bytes = reader.take_exact(length as usize)?;
        let info = vstd::slice::slice_to_vec(bytes);
        Ok(UnresolvedAttribute { name_index, info })
    }

    /// Resolves the name through the pool and decodes the bytes by it.
    pub fn resolve(self, pool: &ConstantPool) -> (r: Result<Attribute, Error>)
        ensures
            view_result(r) == match utf8_at(pool@, self.name_index) {
                Err(e) => Err(e),
                Ok(name) => decode_attribute(name, self.info@, pool@),
            },
        decreases self.info@.len(), 2nat,
    {
        let name = pool.get_utf8(self.name_index)?;
        Attribute::create(name, self.info, pool)
    }
}

/// The value that a `ConstantValue` attribute names at slot `index`.
pub fn constant_value(pool: &ConstantPool, index: u16) -> (r: Result<ConstantValue, Error>)
    ensures
        view_result(r) == constant_value_at(pool@, index),
{
    match pool.entry(index)? {
        CpInfo::Integer { value } => Ok(ConstantValue::Integer(*value)),
        CpInfo::Long { value } => Ok(ConstantValue::Long(*value)),
        CpInfo::Float { bits } => Ok(ConstantValue::Float(*bits)),
        CpInfo::Double { bits } => Ok(ConstantValue::Double(*bits)),
        CpInfo::String { string_index } => Ok(ConstantValue::String(pool.get_utf8(*string_index)?)),
        other => Err(Error::WrongTag { index, expected: 0, found: other.tag().byte() }),
    }
}

/// `a`, provided that the reader is used up.
fn finished(reader: &ByteReader, a: Attribute) -> (r: Result<Attribute, Error>)
    ensures
        view_result(r) == finish(reader@, a@),
{
    if reader.is_empty() {
        Ok(a)
    } else {
        Err(Error::TrailingBytes)
    }
}

/// Reads the exception table of a `Code` attribute: a count, then entries.
pub fn parse_exception_table(constant_pool: &ConstantPool, bytes: &mut ByteReader) -> (r: Result<Vec<ExceptionTableElement>, Error>)
    ensures
        outcome(parse_counted(old(bytes)@, constant_pool@, exception_parser()), seq_result(r), final(bytes)@),
{
    let n = bytes.take_u16()?;
    decode_list(bytes, constant_pool, n as usize)
}

/// Reads a local variable table: a count, then entries.
pub fn parse_local_variable_table(bytes: &mut ByteReader, constant_pool: &ConstantPool) -> (r: Result<Vec<LocalVariableTableElement>, Error>)
    ensures
        outcome(parse_counted(old(bytes)@, constant_pool@, local_variable_parser()), seq_result(r), final(bytes)@),
{
    let n = bytes.take_u16()?;
    decode_list(bytes, constant_pool, n as usize)
}

/// Reads a line number table: a count, then entries.
pub fn parse_line_number_table(bytes: &mut ByteReader, constant_pool: &ConstantPool) -> (r: Result<Vec<LineNumberTableElement>, Error>)
    ensures
        outcome(parse_counted(old(bytes)@, constant_pool@, line_number_parser()), seq_result(r), final(bytes)@),
{
    let n = bytes.take_u16()?;
    decode_list(bytes, constant_pool, n as usize)
}

/// The values of a result holding attributes.
pub open spec fn attrs_result(r: Result<Vec<Attribute>, Error>) -> Result<Seq<AttributeV>, Error> {
    match r {
        Ok(v) => Ok(attrs_view(v@)),
        Err(e) => Err(e),
    }
}

/// Reads `n` attributes and decodes each against the pool.
pub fn read_attributes(reader: &mut ByteReader, pool: &ConstantPool, n: usize) -> (r: Result<Vec<Attribute>, Error>)
    ensures
        outcome(decode_attributes(old(reader)@, n as nat, pool@), attrs_result(r), final(reader)@),
    decreases old(reader)@.len(), 3nat,
{
    let ghost s0 = reader@;
    let mut out: Vec<Attribute> = Vec::new();
    let mut k: usize = 0;
    proof {
        if let Ok((v, s2)) = decode_attributes(s0, n as nat, pool@) {
            assert(attrs_view(out@) + v =~= v);
        }
    }
    while k < n
        invariant
            k <= n,
            s0 == old(reader)@,
            reader@.len() <= s0.len(),
            decode_attributes(s0, n as nat, pool@) == match decode_attributes(reader@, (n - k) as nat, pool@) {
                Ok((rest, s2)) => Ok((attrs_view(out@) + rest, s2)),
                Err(e) => Err::<(Seq<AttributeV>, Seq<u8>), Error>(e),
            },
        decreases n - k,
    {
        let ghost before = reader@;
        let raw = match UnresolvedAttribute::read(reader) {
            Ok(raw) => raw,
            Err(e) => {
                assert(decode_one_attribute(before, pool@) == Err::<(AttributeV, Seq<u8>), Error>(e));
                assert(decode_attributes(before, (n - k) as nat, pool@) == Err::<(Seq<AttributeV>, Seq<u8>), Error>(e));
                return Err(e);
            },
        };
        assert(raw.info@.len() < before.len());
        let ghost ni = raw.name_index;
        let ghost info = raw.info@;
        let a = match raw.resolve(pool) {
            Ok(a) => a,
            Err(e) => {
                assert(decode_one_attribute(before, pool@) == Err::<(AttributeV, Seq<u8>), Error>(e));
                assert(decode_attributes(before, (n - k) as nat, pool@) == Err::<(Seq<AttributeV>, Seq<u8>), Error>(e));
                return Err(e);
            },
        };
        proof {
            lemma_attrs_view_push(out@, a);
            assert(reader@.len() < before.len());
            assert(decode_one_attribute(before, pool@) == Ok::<(AttributeV, Seq<u8>), Error>((a@, reader@)));
            if let Ok((rest, s2)) = decode_attributes(reader@, (n - k - 1) as nat, pool@) {
                assert(attrs_view(out@) + (seq![a@] + rest) =~= attrs_view(out@.push(a)) + rest);
            }
        }
        out.push(a);
        k = k + 1;
    }
    proof {
        assert(attrs_view(out@) + Seq::<AttributeV>::empty() =~= attrs_view(out@));
    }
    Ok(out)
}

/// Decodes the body of a `Code` attribute.
fn decode_code_attribute(info: Vec<u8>, pool: &ConstantPool) -> (r: Result<Attribute, Error>)
    ensures
        view_result(r) == decode_code_body(info@, pool@),
    decreases info@.len(), 0nat,
{
    let total = info.len();
    let mut reader = ByteReader::from(info);
    let max_stack = reader.take_u16()?;
    let max_locals = reader.take_u16()?;
    let n = reader.take_u32()?;
    let code_bytes = vstd::slice::slice_to_vec(reader.take_exact(n as usize)?);
    let code = decode_instructions(code_bytes, pool)?;
    let exception_table = parse_exception_table(pool, &mut reader)?;
    let count = reader.take_u16()?;
    if reader.remaining() >= total {
        return Err(Error::Malformed);
    }
    let attributes = read_attributes(&mut reader, pool, count as usize)?;
    finished(&reader, Attribute::Code(Code { max_stack, max_locals, code, exception_table, attributes }))
}

impl Attribute {
    /// Decodes the body of the attribute named `name`.
    pub fn create(name: String, info: Vec<u8>, constant_pool: &ConstantPool) -> (r: Result<Attribute, Error>)
        ensures
            view_result(r) == decode_attribute(name@, info@, constant_pool@),
        decreases info@.len(), 1nat,
    {
        let pool = constant_pool;
        let ghost bytes = info@;
        if text_equals(name.as_str(), "ConstantValue") {
            let mut reader = ByteReader::from(info);
            let index = reader.take_u16()?;
            let value = constant_value(pool, index)?;
            finished(&reader, Attribute::ConstantValue(value))
        } else if text_equals(name.as_str(), "Code") {
            decode_code_attribute(info, pool)
        } else if text_equals(name.as_str(), "SourceFile") {
            let mut reader = ByteReader::from(info);
            let index = reader.take_u16()?;
            let text = pool.get_utf8(index)?;
            finished(&reader, Attribute::SourceFile(text))
        } else if text_equals(name.as_str(), "LineNumberTable") {
            let mut reader = ByteReader::from(info);
            let v = parse_line_number_table(&mut reader, pool)?;
            finished(&reader, Attribute::LineNumberTable(v))
        } else if text_equals(name.as_str(), "LocalVariableTable") {
            let mut reader = ByteReader::from(info);
            let v = parse_local_variable_table(&mut reader, pool)?;
            finished(&reader, Attribute::LocalVariableTable(v))
        } else if text_equals(name.as_str(), "MethodParameters") {
            let mut reader = ByteReader::from(info);
            let n = reader.take_u8()?;
            let v = decode_list(&mut reader, pool, n as usize)?;
            finished(&reader, Attribute::MethodParameters(v))
        } else if text_equals(name.as_str(), "Synthetic") {
            let reader = ByteReader::from(info);
            finished(&reader, Attribute::Synthetic)
        } else if text_equals(name.as_str(), "Deprecated") {
            let reader = ByteReader::from(info);
            finished(&reader, Attribute::Deprecated)
        } else if text_equals(name.as_str(), "Signature") {
            let mut reader = ByteReader::from(info);
            let index = reader.take_u16()?;
            let text = pool.get_utf8(index)?;
            finished(&reader, Attribute::Signature(text))
        } else {
            Ok(Attribute::Unknown { name, info })
        }
    }
}


/// The name of an attribute on the wire.
pub open spec fn attr_name(a: AttributeV) -> Seq<char> {
    match a {
        AttributeV::ConstantValue(_) => "ConstantValue"@,
        AttributeV::Code(_) => "Code"@,
        AttributeV::SourceFile(_) => "SourceFile"@,
        AttributeV::LineNumberTable(_) => "LineNumberTable"@,
        AttributeV::LocalVariableTable(_) => "LocalVariableTable"@,
        AttributeV::MethodParameters(_) => "MethodParameters"@,
        AttributeV::Synthetic => "Synthetic"@,
        AttributeV::Deprecated => "Deprecated"@,
        AttributeV::Signature(_) => "Signature"@,
        AttributeV::Unknown(n, _) => n,
    }
}

/// The pool slots that encoding an attribute's body interns.
pub open spec fn info_need(a: AttributeV) -> nat
    decreases a,
{
    match a {
        AttributeV::ConstantValue(c) => if c is Integer || c is Float { 1 } else { 2 },
        AttributeV::Code(c) => code_need(c.code) + seq_need::<ExceptionTableElement>(c.exception_table)
            + attrs_need(c.attributes),
        AttributeV::SourceFile(_) => 1,
        AttributeV::Signature(_) => 1,
        AttributeV::LineNumberTable(v) => seq_need::<LineNumberTableElement>(v),
        AttributeV::LocalVariableTable(v) => seq_need::<LocalVariableTableElement>(v),
        AttributeV::MethodParameters(v) => seq_need::<MethodParameter>(v),
        _ => 0,
    }
}

/// The pool slots that encoding attributes interns: each name, then each body.
pub open spec fn attrs_need(s: Seq<AttributeV>) -> nat
    decreases s,
{
    if s.len() == 0 {
        0
    } else {
        1 + info_need(s[0]) + attrs_need(s.drop_first())
    }
}

/// The length of an attribute's encoded body.
pub open spec fn info_len(a: AttributeV) -> nat
    decreases a,
{
    match a {
        AttributeV::ConstantValue(_) => 2,
        AttributeV::Code(c) => 8 + code_len(c.code) + 2 + seq_size::<ExceptionTableElement>(c.exception_table)
            + 2 + attrs_items_len(c.attributes),
        AttributeV::SourceFile(_) => 2,
        AttributeV::Signature(_) => 2,
        AttributeV::LineNumberTable(v) => 2 + seq_size::<LineNumberTableElement>(v),
        AttributeV::LocalVariableTable(v) => 2 + seq_size::<LocalVariableTableElement>(v),
        AttributeV::MethodParameters(v) => 1 + seq_size::<MethodParameter>(v),
        AttributeV::Unknown(_, info) => info.len(),
        _ => 0,
    }
}

/// The length of encoded attributes without their count: each a name index,
/// a four-byte length and the body.
pub open spec fn attrs_items_len(s: Seq<AttributeV>) -> nat
    decreases s,
{
    if s.len() == 0 {
        0
    } else {
        6 + info_len(s[0]) + attrs_items_len(s.drop_first())
    }
}

/// The attribute can be encoded: every table fits its count field, every
/// instruction is well formed, and every body fits its four-byte length.
pub open spec fn attr_fits(a: AttributeV) -> bool
    decreases a,
{
    &&& info_len(a) <= 0xFFFF_FFFF
    &&& match a {
        AttributeV::Code(c) => all_wf(c.code) && c.exception_table.len() <= 0xFFFF && c.attributes.len()
            <= 0xFFFF && attrs_each_fit(c.attributes),
        AttributeV::LineNumberTable(v) => v.len() <= 0xFFFF,
        AttributeV::LocalVariableTable(v) => v.len() <= 0xFFFF,
        AttributeV::MethodParameters(v) => v.len() <= 0xFF,
        _ => true,
    }
}

/// The attributes can be encoded: at most 0xFFFF of them, each one fitting.
pub open spec fn attrs_fit(s: Seq<AttributeV>) -> bool {
    s.len() <= 0xFFFF && attrs_each_fit(s)
}

pub open spec fn attrs_each_fit(s: Seq<AttributeV>) -> bool
    decreases s,
{
    s.len() == 0 || (attr_fits(s[0]) && attrs_each_fit(s.drop_first()))
}

/// Every text that encoding the attribute interns, its name included, fits
/// a `Utf8` constant.
pub open spec fn attr_texts(a: AttributeV) -> bool
    decreases a, 1nat,
{
    text_fits(attr_name(a)) && body_texts(a)
}

/// Every text that encoding the attribute's body interns fits a `Utf8` constant.
pub open spec fn body_texts(a: AttributeV) -> bool
    decreases a, 0nat,
{
    match a {
        AttributeV::ConstantValue(ConstV::String(t)) => text_fits(t),
        AttributeV::Code(c) => code_texts(c.code) && all_texts::<ExceptionTableElement>(c.exception_table)
            && attrs_texts(c.attributes),
        AttributeV::SourceFile(t) => text_fits(t),
        AttributeV::Signature(t) => text_fits(t),
        AttributeV::LocalVariableTable(v) => all_texts::<LocalVariableTableElement>(v),
        AttributeV::MethodParameters(v) => all_texts::<MethodParameter>(v),
        _ => true,
    }
}

pub open spec fn attrs_texts(s: Seq<AttributeV>) -> bool
    decreases s, 2nat,
{
    s.len() == 0 || (attr_texts(s[0]) && attrs_texts(s.drop_first()))
}

/// The pool after a `ConstantValue` body is interned: a `Utf8` and a
/// `String` for a string, else the one numeric constant.
pub open spec fn constant_pushes(p: Pool, c: ConstV) -> Pool {
    match c {
        ConstV::Integer(v) => pushed(p, Cp::Integer(v)),
        ConstV::Long(v) => pushed(p, Cp::Long(v)),
        ConstV::Float(v) => pushed(p, Cp::Float(v)),
        ConstV::Double(v) => pushed(p, Cp::Double(v)),
        ConstV::String(t) => pushed(pushed(p, Cp::Utf8(t)), Cp::String(p.len() as u16)),
    }
}

proof fn lemma_attrs_concat(s: Seq<AttributeV>, t: Seq<AttributeV>)
    ensures
        attrs_need(s + t) == attrs_need(s) + attrs_need(t),
        attrs_items_len(s + t) == attrs_items_len(s) + attrs_items_len(t),
        attrs_each_fit(s + t) == (attrs_each_fit(s) && attrs_each_fit(t)),
        attrs_texts(s + t) == (attrs_texts(s) && attrs_texts(t)),
    decreases s.len(),
{
    if s.len() == 0 {
        assert(s + t =~= t);
    } else {
        lemma_attrs_concat(s.drop_first(), t);
        assert((s + t).drop_first() =~= s.drop_first() + t);
        assert((s + t)[0] == s[0]);
    }
}

proof fn lemma_attrs_step(v: Seq<AttributeV>, k: int)
    requires
        0 <= k < v.len(),
    ensures
        attrs_need(v.take(k + 1)) == attrs_need(v.take(k)) + 1 + info_need(v[k]),
        attrs_items_len(v.take(k + 1)) == attrs_items_len(v.take(k)) + 6 + info_len(v[k]),
        attrs_each_fit(v.take(k + 1)) == (attrs_each_fit(v.take(k)) && attr_fits(v[k])),
        attrs_texts(v.take(k + 1)) == (attrs_texts(v.take(k)) && attr_texts(v[k])),
        attrs_need(v.take(k + 1)) <= attrs_need(v),
        attrs_each_fit(v) ==> attrs_each_fit(v.take(k + 1)),
{
    let one = seq![v[k]];
    assert(v.take(k + 1) =~= v.take(k) + one);
    lemma_attrs_concat(v.take(k), one);
    assert(one.drop_first() =~= Seq::<AttributeV>::empty());
    assert(one[0] == v[k]);
    assert(attrs_need(Seq::<AttributeV>::empty()) == 0);
    assert(attrs_items_len(Seq::<AttributeV>::empty()) == 0);
    assert(attrs_need(one) == 1 + info_need(v[k]));
    assert(attrs_each_fit(Seq::<AttributeV>::empty()));
    assert(attrs_texts(Seq::<AttributeV>::empty()));
    assert(attrs_each_fit(one) == attr_fits(v[k]));
    assert(attrs_texts(one) == attr_texts(v[k]));
    assert(attrs_items_len(one) == 6 + info_len(v[k]));
    assert(v =~= v.take(k + 1) + v.skip(k + 1));
    lemma_attrs_concat(v.take(k + 1), v.skip(k + 1));
}

/// The bytes of a raw attribute: name index, four-byte length, info bytes.
pub open spec fn raw_bytes(r: (u16, Seq<u8>)) -> Seq<u8> {
    bytes16(r.0) + bytes32(r.1.len() as u32) + r.1
}

/// `b` holds the count of `raws`, then each raw attribute; each names its
/// attribute's name in `p`, has the body length of `v`'s attribute, and an
/// `Unknown` attribute keeps its bytes.
pub open spec fn raw_layout(raws: Seq<(u16, Seq<u8>)>, v: Seq<AttributeV>, p: Pool, b: Seq<u8>) -> bool {
    &&& raws.len() == v.len()
    &&& b == bytes16(raws.len() as u16) + flatten(raws.map_values(|r: (u16, Seq<u8>)| raw_bytes(r)))
    &&& forall|j: int|
        0 <= j < raws.len() ==> {
            &&& utf8_at(p, (#[trigger] raws[j]).0) == Ok::<Seq<char>, Error>(attr_name(v[j]))
            &&& raws[j].1.len() == info_len(v[j])
            &&& (v[j] matches AttributeV::Unknown(n, i) ==> raws[j].1 == i)
        }
}

/// What encoding the body of `a` as `b` did to the pool, from `before` to `after`:
/// it only appended, as many slots as the body needs, the body has its
/// length, and the texts fit exactly when the body's texts fit.
pub open spec fn body_facts(a: AttributeV, b: Seq<u8>, before: Pool, after: Pool) -> bool {
    &&& extends(after, before)
    &&& after.len() == before.len() + info_need(a)
    &&& b.len() == info_len(a)
    &&& texts_fit(after) == (texts_fit(before) && body_texts(a))
}

/// One of the names that the decoder dispatches on.
pub open spec fn known_name(n: Seq<char>) -> bool {
    n == "ConstantValue"@ || n == "Code"@ || n == "SourceFile"@ || n == "LineNumberTable"@ || n
        == "LocalVariableTable"@ || n == "MethodParameters"@ || n == "Synthetic"@ || n == "Deprecated"@
        || n == "Signature"@
}

/// The attribute reads back as it is written: its flag sets are in decoded
/// form, and an `Unknown` attribute does not carry a supported name.
pub open spec fn attr_canonical(a: AttributeV) -> bool
    decreases a,
{
    match a {
        AttributeV::Code(c) => attrs_canonical(c.attributes),
        AttributeV::MethodParameters(v) => all_canonical::<MethodParameter>(v),
        AttributeV::Unknown(n, _) => !known_name(n),
        _ => true,
    }
}

/// Every attribute of `s` is canonical.
pub open spec fn attrs_canonical(s: Seq<AttributeV>) -> bool
    decreases s,
{
    if s.len() == 0 {
        true
    } else {
        attr_canonical(s[0]) && attrs_canonical(s.drop_first())
    }
}

/// A size that nested attributes are smaller in.
pub open spec fn attr_size(a: Attribute) -> nat
    decreases a,
{
    match a {
        Attribute::Code(c) => 1 + attrs_size(c.attributes@),
        _ => 1,
    }
}

pub open spec fn attrs_size(s: Seq<Attribute>) -> nat
    decreases s,
{
    if s.len() == 0 {
        0
    } else {
        attr_size(s[0]) + attrs_size(s.drop_first())
    }
}

proof fn lemma_attrs_index(s: Seq<Attribute>, i: int)
    requires
        0 <= i < s.len(),
    ensures
        attr_size(s[i]) <= attrs_size(s),
        attrs_view(s)[i] == attr_view(s[i]),
        attrs_view(s).len() == s.len(),
        attrs_canonical(attrs_view(s)) ==> attr_canonical(attr_view(s[i])),
    decreases s.len(),
{
    if i > 0 {
        lemma_attrs_index(s.drop_first(), i - 1);
    }
    lemma_attrs_view_len(s);
    assert(attrs_view(s).drop_first() =~= attrs_view(s.drop_first()));
}

pub proof fn lemma_attrs_view_len(s: Seq<Attribute>)
    ensures
        attrs_view(s).len() == s.len(),
    decreases s.len(),
{
    if s.len() > 0 {
        lemma_attrs_view_len(s.drop_first());
    }
}

proof fn lemma_names_distinct()
    ensures
        "ConstantValue"@ != "Code"@,
        "ConstantValue"@ != "SourceFile"@,
        "ConstantValue"@ != "LineNumberTable"@,
        "ConstantValue"@ != "LocalVariableTable"@,
        "ConstantValue"@ != "MethodParameters"@,
        "ConstantValue"@ != "Synthetic"@,
        "ConstantValue"@ != "Deprecated"@,
        "ConstantValue"@ != "Signature"@,
        "Code"@ != "SourceFile"@,
        "Code"@ != "LineNumberTable"@,
        "Code"@ != "LocalVariableTable"@,
        "Code"@ != "MethodParameters"@,
        "Code"@ != "Synthetic"@,
        "Code"@ != "Deprecated"@,
        "Code"@ != "Signature"@,
        "SourceFile"@ != "LineNumberTable"@,
        "SourceFile"@ != "LocalVariableTable"@,
        "SourceFile"@ != "MethodParameters"@,
        "SourceFile"@ != "Synthetic"@,
        "SourceFile"@ != "Deprecated"@,
        "SourceFile"@ != "Signature"@,
        "LineNumberTable"@ != "LocalVariableTable"@,
        "LineNumberTable"@ != "MethodParameters"@,
        "LineNumberTable"@ != "Synthetic"@,
        "LineNumberTable"@ != "Deprecated"@,
        "LineNumberTable"@ != "Signature"@,
        "LocalVariableTable"@ != "MethodParameters"@,
        "LocalVariableTable"@ != "Synthetic"@,
        "LocalVariableTable"@ != "Deprecated"@,
        "LocalVariableTable"@ != "Signature"@,
        "MethodParameters"@ != "Synthetic"@,
        "MethodParameters"@ != "Deprecated"@,
        "MethodParameters"@ != "Signature"@,
        "Synthetic"@ != "Deprecated"@,
        "Synthetic"@ != "Signature"@,
        "Deprecated"@ != "Signature"@,
{
    reveal_strlit("ConstantValue");
    reveal_strlit("Code");
    reveal_strlit("SourceFile");
    reveal_strlit("LineNumberTable");
    reveal_strlit("LocalVariableTable");
    reveal_strlit("MethodParameters");
    reveal_strlit("Synthetic");
    reveal_strlit("Deprecated");
    reveal_strlit("Signature");
    assert("ConstantValue"@[0] != "Code"@[2]);
    assert("Code"@.len() != "SourceFile"@.len());
    assert("LineNumberTable"@.len() != "LocalVariableTable"@.len());
    assert("Synthetic"@[0] != "Signature"@[1]);
    assert("SourceFile"@[0] != "Deprecated"@[0]);
    assert("MethodParameters"@.len() != "Deprecated"@.len());
    assert("SourceFile"@[0] != "Signature"@[1]);
    assert("Synthetic"@[0] != "Deprecated"@[0]);
    assert("ConstantValue"@.len() != "Deprecated"@.len());
}

/// `info` decodes, under the name of `a`, to `a` against every pool that extends `p`.
pub open spec fn encodes_info(info: Seq<u8>, a: AttributeV, p: Pool) -> bool {
    forall|q: Pool| extends(q, p) ==> #[trigger] decode_attribute(attr_name(a), info, q) == Ok::<AttributeV, Error>(a)
}

/// `b` holds an attribute count and attributes that decode to `v` against
/// every pool that extends `p`.
pub open spec fn encodes_attributes(b: Seq<u8>, v: Seq<AttributeV>, p: Pool) -> bool {
    forall|q: Pool, rest: Seq<u8>|
        extends(q, p) ==> #[trigger] decode_counted_attributes(b + rest, q) == Ok::<(Seq<AttributeV>, Seq<u8>), Error>((v, rest))
}

/// A two-byte count, then that many attributes.
pub open spec fn decode_counted_attributes(s: Seq<u8>, p: Pool) -> Result<(Seq<AttributeV>, Seq<u8>), Error> {
    match parse_u16(s) {
        Err(e) => Err(e),
        Ok((n, s1)) => decode_attributes(s1, n as nat, p),
    }
}

/// The error kinds that encoding reports: a table or pool that outgrows its
/// field, or an instruction that cannot be encoded.
pub open spec fn encode_error_kind(e: Error) -> bool {
    e == Error::TooLarge || e == Error::Malformed || e is UnknownOpcode
}

#[verifier::rlimit(60)]
proof fn lemma_one_attribute(ni: u16, info: Seq<u8>, a: AttributeV, p: Pool, q: Pool, rest: Seq<u8>)
    requires
        utf8_at(p, ni) == Ok::<Seq<char>, Error>(attr_name(a)),
        encodes_info(info, a, p),
        info.len() <= 0xFFFF_FFFF,
        extends(q, p),
    ensures
        decode_one_attribute(bytes16(ni) + bytes32(info.len() as u32) + info + rest, q) == Ok::<(AttributeV, Seq<u8>), Error>((a, rest)),
{
    let s = bytes16(ni) + bytes32(info.len() as u32) + info + rest;
    assert(s =~= bytes16(ni) + (bytes32(info.len() as u32) + (info + rest)));
    lemma_parse_u16(ni, bytes32(info.len() as u32) + (info + rest));
    lemma_parse_u32(info.len() as u32, info + rest);
    assert((info + rest).take(info.len() as int) =~= info);
    assert((info + rest).skip(info.len() as int) =~= rest);
    lemma_lookups_stable(p, q, ni);
    assert(parse_raw_attribute(s) == Ok::<((u16, Seq<u8>), Seq<u8>), Error>(((ni, info), rest)));
    assert(decode_attribute(attr_name(a), info, q) == Ok::<AttributeV, Error>(a));
}

proof fn lemma_attribute_chunks(c: Seq<Seq<u8>>, v: Seq<AttributeV>, p: Pool, q: Pool, rest: Seq<u8>)
    requires
        c.len() == v.len(),
        forall|j: int| 0 <= j < c.len() ==> (#[trigger] c[j]).len() >= 1,
        forall|j: int, r: Seq<u8>| 0 <= j < c.len() ==> #[trigger] decode_one_attribute(c[j] + r, q) == Ok::<(AttributeV, Seq<u8>), Error>((v[j], r)),
    ensures
        decode_attributes(flatten(c) + rest, c.len(), q) == Ok::<(Seq<AttributeV>, Seq<u8>), Error>((v, rest)),
    decreases c.len(),
{
    if c.len() == 0 {
        assert(flatten(c) + rest =~= rest);
        assert(v =~= Seq::<AttributeV>::empty());
    } else {
        let tail = flatten(c.drop_first()) + rest;
        assert forall|j: int| 0 <= j < c.drop_first().len() implies (#[trigger] c.drop_first()[j]).len() >= 1 by {
            assert(c.drop_first()[j] == c[j + 1]);
        }
        assert forall|j: int, r: Seq<u8>| 0 <= j < c.drop_first().len() implies #[trigger] decode_one_attribute(c.drop_first()[j] + r, q)
            == Ok::<(AttributeV, Seq<u8>), Error>((v.drop_first()[j], r)) by {
            assert(c.drop_first()[j] == c[j + 1]);
            assert(decode_one_attribute(c[j + 1] + r, q) == Ok::<(AttributeV, Seq<u8>), Error>((v[j + 1], r)));
        }
        lemma_attribute_chunks(c.drop_first(), v.drop_first(), p, q, rest);
        assert(flatten(c) + rest =~= c[0] + tail);
        assert(decode_one_attribute(c[0] + tail, q) == Ok::<(AttributeV, Seq<u8>), Error>((v[0], tail)));
        assert(seq![v[0]] + v.drop_first() =~= v);
    }
}


/// Writes an exception table: its count, then its entries, interning catch types.
pub fn write_exception_table(constant_pool: &mut ConstantPool, exception_table: &Vec<ExceptionTableElement>, writer: &mut ByteWriter) -> (r: Result<(), Error>)
    ensures
        r is Ok ==> (crate::constant_pool::linked(old(constant_pool)@) ==> crate::constant_pool::linked(final(constant_pool)@)),
        r is Ok <==> exception_table@.len() <= 0xFFFF && old(constant_pool)@.len()
            + crate::list::seq_need::<ExceptionTableElement>(seq_view(exception_table@)) <= 0xFFFF,
        match r {
            Ok(()) => extends(final(constant_pool)@, old(constant_pool)@)
                && final(constant_pool)@ == crate::list::seq_pushes::<ExceptionTableElement>(old(constant_pool)@, seq_view(exception_table@))
                && final(constant_pool)@.len() == old(constant_pool)@.len() + seq_need::<ExceptionTableElement>(seq_view(exception_table@))
                && texts_fit(final(constant_pool)@) == (texts_fit(old(constant_pool)@) && all_texts::<ExceptionTableElement>(seq_view(exception_table@)))
                && final(writer)@.len() == old(writer)@.len() + 2 + seq_size::<ExceptionTableElement>(seq_view(exception_table@))
                && final(writer)@.take(old(writer)@.len() as int) == old(writer)@
                && encodes_table(final(writer)@.skip(old(writer)@.len() as int), seq_view(exception_table@), final(constant_pool)@, exception_parser()),
            Err(e) => e == Error::TooLarge,
        },
{
    let r = write_table(exception_table, constant_pool, writer);
    assert(all_canonical::<ExceptionTableElement>(seq_view(exception_table@)));
    r
}

/// The bytes of a local variable table (its count, then its entries),
/// interning names and descriptors.
pub fn write_local_variable_table(line_number_table: &Vec<LocalVariableTableElement>, constant_pool: &mut ConstantPool) -> (r: Result<Vec<u8>, Error>)
    ensures
        r is Ok ==> (crate::constant_pool::linked(old(constant_pool)@) ==> crate::constant_pool::linked(final(constant_pool)@)),
        r is Ok <==> line_number_table@.len() <= 0xFFFF && old(constant_pool)@.len()
            + crate::list::seq_need::<LocalVariableTableElement>(seq_view(line_number_table@)) <= 0xFFFF,
        match r {
            Ok(b) => extends(final(constant_pool)@, old(constant_pool)@)
                && encodes_table(b@, seq_view(line_number_table@), final(constant_pool)@, local_variable_parser()),
            Err(e) => e == Error::TooLarge,
        },
{
    let mut writer = ByteWriter::new();
    write_table(line_number_table, constant_pool, &mut writer)?;
    assert(all_canonical::<LocalVariableTableElement>(seq_view(line_number_table@)));
    assert(writer@.skip(0) =~= writer@);
    Ok(writer.into_bytes())
}

/// `b` holds a two-byte count and entries that decode to `v` against every
/// pool that extends `p`.
pub open spec fn encodes_table<T>(b: Seq<u8>, v: Seq<T>, p: Pool, elem: spec_fn(Seq<u8>, Pool) -> Result<(T, Seq<u8>), Error>) -> bool {
    forall|q: Pool, rest: Seq<u8>|
        extends(q, p) ==> #[trigger] parse_counted(b + rest, q, elem) == Ok::<(Seq<T>, Seq<u8>), Error>((v, rest))
}

/// Writes a two-byte count, then the entries.
pub(crate) fn write_table<T: Element>(items: &Vec<T>, pool: &mut ConstantPool, writer: &mut ByteWriter) -> (r: Result<(), Error>)
    ensures
        r is Ok ==> (crate::constant_pool::linked(old(pool)@) ==> crate::constant_pool::linked(final(pool)@)),
        r is Ok <==> items@.len() <= 0xFFFF && old(pool)@.len() + crate::list::seq_need::<T>(seq_view(items@)) <= 0xFFFF,
        match r {
            Ok(()) => extends(final(pool)@, old(pool)@)
                && final(pool)@ == crate::list::seq_pushes::<T>(old(pool)@, seq_view(items@))
                && final(pool)@.len() == old(pool)@.len() + seq_need::<T>(seq_view(items@))
                && texts_fit(final(pool)@) == (texts_fit(old(pool)@) && all_texts::<T>(seq_view(items@)))
                && final(writer)@.len() == old(writer)@.len() + 2 + seq_size::<T>(seq_view(items@))
                && final(writer)@.take(old(writer)@.len() as int) == old(writer)@
                && (all_canonical::<T>(seq_view(items@)) ==> encodes_table(final(writer)@.skip(old(writer)@.len() as int), seq_view(items@), final(pool)@, T::parser())),
            Err(e) => e == Error::TooLarge,
        },
{
    if items.len() > 0xFFFF {
        return Err(Error::TooLarge);
    }
    let ghost w0 = writer@;
    writer.write(items.len() as u16);
    let ghost w1 = writer@;
    encode_list(items, pool, writer)?;
    proof {
        let v = seq_view(items@);
        let b = writer@.skip(w0.len() as int);
        let items_bytes = writer@.skip(w1.len() as int);
        assert forall|i: int| 0 <= i < w1.len() implies writer@[i] == w1[i] by {
            assert(writer@.take(w1.len() as int)[i] == w1[i]);
        }
        assert(writer@ =~= w1 + items_bytes);
        assert(w1 == w0 + bytes16(items@.len() as u16));
        assert(writer@ =~= w0 + (bytes16(items@.len() as u16) + items_bytes));
        assert(b =~= bytes16(items@.len() as u16) + items_bytes);
        assert(writer@.take(w0.len() as int) =~= w0);
        assert forall|q: Pool, rest: Seq<u8>| extends(q, pool@) && all_canonical::<T>(v) implies #[trigger] parse_counted(b + rest, q, T::parser())
            == Ok::<(Seq<T::V>, Seq<u8>), Error>((v, rest)) by {
            assert(b + rest =~= bytes16(items@.len() as u16) + (items_bytes + rest));
            lemma_parse_u16(items@.len() as u16, items_bytes + rest);
            assert(parse_list(items_bytes + rest, v.len(), q, T::parser()) == Ok::<(Seq<T::V>, Seq<u8>), Error>((v, rest)));
        }
    }
    Ok(())
}


/// The info bytes of a `ConstantValue` attribute: the index of a freshly
/// interned constant.
fn constant_value_info(c: &ConstantValue, pool: &mut ConstantPool) -> (r: Result<Vec<u8>, Error>)
    ensures
        r is Ok ==> (crate::constant_pool::linked(old(pool)@) ==> crate::constant_pool::linked(final(pool)@)),
        r is Ok <==> old(pool)@.len() + info_need(AttributeV::ConstantValue(c@)) <= 0xFFFF,
        match r {
            Ok(b) => body_facts(AttributeV::ConstantValue(c@), b@, old(pool)@, final(pool)@)
                && final(pool)@ == constant_pushes(old(pool)@, c@)
                && b@ == bytes16((old(pool)@.len() + if c@ is String { 1int } else { 0int }) as u16)
                && encodes_info(b@, AttributeV::ConstantValue(c@), final(pool)@),
            Err(e) => e == Error::TooLarge,
        },
{
    let ghost at0 = pool@;
    let ghost mut si: u16 = 0;
    let ghost mut at1 = pool@;
    let constant = match c {
        ConstantValue::Integer(v) => CpInfo::Integer { value: *v },
        ConstantValue::Long(v) => CpInfo::Long { value: *v },
        ConstantValue::Float(v) => CpInfo::Float { bits: *v },
        ConstantValue::Double(v) => CpInfo::Double { bits: *v },
        ConstantValue::String(t) => {
            let i = intern_utf8(t, pool)?;
            proof {
                si = i;
                at1 = pool@;
            }
            CpInfo::String { string_index: i }
        },
    };
    proof {
        lemma_extends_pushed(pool@, constant@);
        if c is String {
            lemma_lookups_stable(at1, pushed(pool@, constant@), si);
        } else {
            lemma_extends_refl(at0);
        }
    }
    let index = pool.push(constant)?;
    proof {
        lemma_extends_trans(at0, at1, pool@);
        assert(constant_value_at(pool@, index) == Ok::<ConstV, Error>(c@));
    }
    let mut w = ByteWriter::new();
    w.write(index);
    let b = w.into_bytes();
    proof {
        lemma_names_distinct();
        assert forall|q: Pool| extends(q, pool@) implies #[trigger] decode_attribute(
            attr_name(AttributeV::ConstantValue(c@)),
            b@,
            q,
        ) == Ok::<AttributeV, Error>(AttributeV::ConstantValue(c@)) by {
            lemma_parse_u16(index, Seq::empty());
            assert(bytes16(index) + Seq::<u8>::empty() =~= b@);
            lemma_lookups_stable(pool@, q, index);
            if let ConstantValue::String(t) = c {
                lemma_lookups_stable(pool@, q, si);
            }
            assert(constant_value_at(q, index) == Ok::<ConstV, Error>(c@));
        }
    }
    Ok(b)
}

/// The info bytes of a `SourceFile` or `Signature` attribute: the index of
/// the interned text.
fn text_info(t: &String, pool: &mut ConstantPool, a: Ghost<AttributeV>) -> (r: Result<Vec<u8>, Error>)
    requires
        a@ == AttributeV::SourceFile(t@) || a@ == AttributeV::Signature(t@),
    ensures
        r is Ok ==> (crate::constant_pool::linked(old(pool)@) ==> crate::constant_pool::linked(final(pool)@)),
        r is Ok <==> old(pool)@.len() + 1 <= 0xFFFF,
        match r {
            Ok(b) => body_facts(a@, b@, old(pool)@, final(pool)@)
                && final(pool)@ == pushed(old(pool)@, Cp::Utf8(t@))
                && b@ == bytes16(old(pool)@.len() as u16)
                && encodes_info(b@, a@, final(pool)@),
            Err(e) => e == Error::TooLarge,
        },
{
    let index = intern_utf8(t, pool)?;
    let mut w = ByteWriter::new();
    w.write(index);
    let b = w.into_bytes();
    proof {
        lemma_names_distinct();
        assert forall|q: Pool| extends(q, pool@) implies #[trigger] decode_attribute(attr_name(a@), b@, q)
            == Ok::<AttributeV, Error>(a@) by {
            lemma_parse_u16(index, Seq::empty());
            assert(bytes16(index) + Seq::<u8>::empty() =~= b@);
            lemma_lookups_stable(pool@, q, index);
        }
    }
    Ok(b)
}

/// The info bytes of a table attribute: a two-byte count, then the entries.
fn table_info<T: Element>(items: &Vec<T>, pool: &mut ConstantPool) -> (r: Result<Vec<u8>, Error>)
    ensures
        r is Ok ==> (crate::constant_pool::linked(old(pool)@) ==> crate::constant_pool::linked(final(pool)@)),
        r is Ok <==> items@.len() <= 0xFFFF && old(pool)@.len() + seq_need::<T>(seq_view(items@)) <= 0xFFFF
            && 2 + seq_size::<T>(seq_view(items@)) <= 0xFFFF_FFFF,
        match r {
            Ok(b) => extends(final(pool)@, old(pool)@) && b@.len() <= 0xFFFF_FFFF
                && final(pool)@.len() == old(pool)@.len() + seq_need::<T>(seq_view(items@))
                && texts_fit(final(pool)@) == (texts_fit(old(pool)@) && all_texts::<T>(seq_view(items@)))
                && b@.len() == 2 + seq_size::<T>(seq_view(items@))
                && (all_canonical::<T>(seq_view(items@)) ==> encodes_table(b@, seq_view(items@), final(pool)@, T::parser())),
            Err(e) => e == Error::TooLarge,
        },
{
    let mut w = ByteWriter::new();
    write_table(items, pool, &mut w)?;
    if w.len() > 0xFFFF_FFFF {
        return Err(Error::TooLarge);
    }
    assert(w@.skip(0) =~= w@);
    Ok(w.into_bytes())
}

/// The info bytes of a `MethodParameters` attribute: a one-byte count, then the entries.
fn parameters_info(items: &Vec<MethodParameter>, pool: &mut ConstantPool) -> (r: Result<Vec<u8>, Error>)
    ensures
        r is Ok ==> (crate::constant_pool::linked(old(pool)@) ==> crate::constant_pool::linked(final(pool)@)),
        r is Ok <==> items@.len() <= 0xFF && old(pool)@.len() + seq_need::<MethodParameter>(seq_view(items@)) <= 0xFFFF
            && 1 + seq_size::<MethodParameter>(seq_view(items@)) <= 0xFFFF_FFFF,
        match r {
            Ok(b) => body_facts(AttributeV::MethodParameters(seq_view(items@)), b@, old(pool)@, final(pool)@)
                && (all_canonical::<MethodParameter>(seq_view(items@)) ==> encodes_info(
                    b@,
                    AttributeV::MethodParameters(seq_view(items@)),
                    final(pool)@,
                )),
            Err(e) => e == Error::TooLarge,
        },
{
    if items.len() > 0xFF {
        return Err(Error::TooLarge);
    }
    let mut w = ByteWriter::new();
    w.write_byte(items.len() as u8);
    let ghost w1 = w@;
    encode_list(items, pool, &mut w)?;
    if w.len() > 0xFFFF_FFFF {
        return Err(Error::TooLarge);
    }
    let b = w.into_bytes();
    proof {
        lemma_names_distinct();
        let v = seq_view(items@);
        let tail = b@.skip(1);
        assert forall|i: int| 0 <= i < 1 implies b@[i] == w1[i] by {
            assert(b@.take(1)[i] == w1[i]);
        }
        assert(b@ =~= seq![items@.len() as u8] + tail);
        assert forall|q: Pool| extends(q, pool@) && all_canonical::<MethodParameter>(v) implies #[trigger] decode_attribute(
            attr_name(AttributeV::MethodParameters(v)),
            b@,
            q,
        ) == Ok::<AttributeV, Error>(AttributeV::MethodParameters(v)) by {
            assert((seq![items@.len() as u8] + tail).skip(1) =~= tail);
            assert(tail + Seq::<u8>::empty() =~= tail);
            assert(parse_list(tail + Seq::<u8>::empty(), v.len(), q, parameter_parser()) == Ok::<(Seq<ParameterV>, Seq<u8>), Error>((v, Seq::<u8>::empty())));
        }
    }
    Ok(b)
}


#[verifier::rlimit(60)]
proof fn lemma_code_body(
    info: Seq<u8>,
    c: CodeV,
    s1: Seq<u8>,
    s2: Seq<u8>,
    s3: Seq<u8>,
    code_bytes: Seq<u8>,
    s4: Seq<u8>,
    attrs: Seq<u8>,
    q: Pool,
)
    requires
        info == bytes16(c.max_stack) + s1,
        s1 == bytes16(c.max_locals) + s2,
        s2 == bytes32(code_bytes.len() as u32) + s3,
        s3 == code_bytes + s4,
        code_bytes.len() <= 0xFFFF_FFFF,
        attrs.len() < info.len(),
        decode_code(code_bytes, q) == Ok::<Seq<InstructionV>, Error>(c.code),
        parse_counted(s4, q, exception_parser()) == Ok::<(Seq<ExceptionV>, Seq<u8>), Error>((c.exception_table, attrs)),
        decode_counted_attributes(attrs, q) == Ok::<(Seq<AttributeV>, Seq<u8>), Error>((c.attributes, Seq::<u8>::empty())),
    ensures
        decode_code_body(info, q) == Ok::<AttributeV, Error>(AttributeV::Code(c)),
{
    let n = code_bytes.len() as u32;
    lemma_parse_u16(c.max_stack, s1);
    lemma_parse_u16(c.max_locals, s2);
    lemma_parse_u32(n, s3);
    assert(s3.take(n as int) =~= code_bytes);
    assert(s3.skip(n as int) =~= s4);
    assert(parse_bytes(s3, n as nat) == Ok::<(Seq<u8>, Seq<u8>), Error>((code_bytes, s4)));
}

#[verifier::rlimit(80)]
proof fn lemma_code_info(
    info: Seq<u8>,
    c: CodeV,
    code_bytes: Seq<u8>,
    table: Seq<u8>,
    attrs: Seq<u8>,
    p: Pool,
)
    requires
        info == bytes16(c.max_stack) + bytes16(c.max_locals) + bytes32(code_bytes.len() as u32) + code_bytes
            + table + attrs,
        code_bytes.len() <= 0xFFFF_FFFF,
        encodes_code(code_bytes, c.code, p),
        encodes_table(table, c.exception_table, p, exception_parser()),
        encodes_attributes(attrs, c.attributes, p),
    ensures
        encodes_info(info, AttributeV::Code(c), p),
{
    lemma_names_distinct();
    assert forall|q: Pool| extends(q, p) implies #[trigger] decode_attribute(attr_name(AttributeV::Code(c)), info, q)
        == Ok::<AttributeV, Error>(AttributeV::Code(c)) by {
        assert(decode_code(code_bytes, q) == Ok::<Seq<InstructionV>, Error>(c.code));
        assert(parse_counted(table + attrs, q, exception_parser()) == Ok::<(Seq<ExceptionV>, Seq<u8>), Error>((c.exception_table, attrs)));
        assert(attrs + Seq::<u8>::empty() =~= attrs);
        assert(decode_counted_attributes(attrs + Seq::<u8>::empty(), q) == Ok::<(Seq<AttributeV>, Seq<u8>), Error>((c.attributes, Seq::<u8>::empty())));
        let n = code_bytes.len() as u32;
        let s4 = table + attrs;
        let s3 = code_bytes + s4;
        let s2 = bytes32(n) + s3;
        let s1 = bytes16(c.max_locals) + s2;
        assert(info =~= bytes16(c.max_stack) + s1);
        lemma_code_body(info, c, s1, s2, s3, code_bytes, s4, attrs, q);
    }
}

/// The info bytes of a `Code` attribute.
fn code_info(c: &Code, pool: &mut ConstantPool) -> (r: Result<Vec<u8>, Error>)
    ensures
        r is Ok ==> (crate::constant_pool::linked(old(pool)@) ==> crate::constant_pool::linked(final(pool)@)),
        r is Ok <==> attr_fits(attr_view(Attribute::Code(*c))) && old(pool)@.len() + info_need(
            attr_view(Attribute::Code(*c)),
        ) <= 0xFFFF,
        match r {
            Ok(b) => body_facts(attr_view(Attribute::Code(*c)), b@, old(pool)@, final(pool)@)
                && b@.take(8) == bytes16(c.max_stack) + bytes16(c.max_locals) + bytes32(
                    code_len(instructions_view(c.code@)) as u32,
                )
                && (attrs_canonical(attrs_view(c.attributes@)) ==> encodes_info(
                    b@,
                    attr_view(Attribute::Code(*c)),
                    final(pool)@,
                )),
            Err(e) => encode_error_kind(e),
        },
    decreases 1 + attrs_size(c.attributes@), 0nat,
{
    let ghost at0 = pool@;
    let ghost a = attr_view(Attribute::Code(*c));
    proof {
        lemma_attrs_view_len(c.attributes@);
        use_type_invariant(&*pool);
        assert(a->Code_0.attributes == attrs_view(c.attributes@));
        assert(a->Code_0.code == instructions_view(c.code@));
        assert(a->Code_0.exception_table == seq_view(c.exception_table@));
        assert(info_need(a) == code_need(instructions_view(c.code@)) + seq_need::<ExceptionTableElement>(seq_view(c.exception_table@))
            + attrs_need(attrs_view(c.attributes@)));
        assert(info_len(a) == 8 + code_len(instructions_view(c.code@)) + 2 + seq_size::<ExceptionTableElement>(seq_view(c.exception_table@))
            + 2 + attrs_items_len(attrs_view(c.attributes@)));
        assert(attr_fits(a) == (info_len(a) <= 0xFFFF_FFFF && all_wf(instructions_view(c.code@)) && c.exception_table@.len() <= 0xFFFF
            && c.attributes@.len() <= 0xFFFF && attrs_each_fit(attrs_view(c.attributes@))));
    }
    let mut cw = ByteWriter::new();
    match encode_instructions(&c.code, pool, &mut cw) {
        Ok(()) => {},
        Err(e) => return Err(e),
    }
    let code_bytes = cw.into_bytes();
    if code_bytes.len() > 0xFFFF_FFFF {
        return Err(Error::TooLarge);
    }
    let ghost at1 = pool@;
    let mut w = ByteWriter::new();
    w.write(c.max_stack);
    w.write(c.max_locals);
    w.write(code_bytes.len() as u32);
    w.write_bytes(code_bytes.as_slice());
    let ghost w1 = w@;
    write_exception_table(pool, &c.exception_table, &mut w)?;
    let ghost at2 = pool@;
    let ghost w2 = w@;
    write_attributes(&c.attributes, pool, &mut w)?;
    if w.len() > 0xFFFF_FFFF {
        return Err(Error::TooLarge);
    }
    let b = w.into_bytes();
    proof {
        use_type_invariant(&*pool);
        let prefix = bytes16(c.max_stack) + bytes16(c.max_locals) + bytes32(code_bytes@.len() as u32);
        assert(w1 =~= prefix + code_bytes@);
        assert(b@.take(8) =~= prefix) by {
            assert forall|i: int| 0 <= i < 8 implies b@[i] == prefix[i] by {
                assert(b@.take(w2.len() as int)[i] == w2[i]);
                assert(w2.take(w1.len() as int)[i] == w1[i]);
                assert(w1[i] == prefix[i]);
            }
        }
        assert(cw@.skip(0) =~= cw@);
        lemma_extends_trans(at0, at1, at2);
        lemma_extends_trans(at0, at2, pool@);
        lemma_extends_trans(at1, at2, pool@);
        let table = w2.skip(w1.len() as int);
        let attrs = b@.skip(w2.len() as int);
        assert forall|i: int| 0 <= i < w2.len() implies b@[i] == w2[i] by {
            assert(b@.take(w2.len() as int)[i] == w2[i]);
        }
        assert forall|i: int| 0 <= i < w1.len() implies w2[i] == w1[i] by {
            assert(w2.take(w1.len() as int)[i] == w1[i]);
        }
        assert(w2 =~= w1 + table);
        assert(b@ =~= w2 + attrs);
        assert(b@ =~= bytes16(c.max_stack) + bytes16(c.max_locals) + bytes32(code_bytes@.len() as u32) + code_bytes@ + table + attrs);
        let v = attr_view(Attribute::Code(*c));
        if attrs_canonical(attrs_view(c.attributes@)) {
            let cv = CodeV {
                max_stack: c.max_stack,
                max_locals: c.max_locals,
                code: instructions_view(c.code@),
                exception_table: seq_view(c.exception_table@),
                attributes: attrs_view(c.attributes@),
            };
            assert(v == AttributeV::Code(cv));
            assert(all_canonical::<ExceptionTableElement>(seq_view(c.exception_table@)));
            assert forall|q: Seq<Option<Cp>>| extends(q, pool@) implies #[trigger] decode_code(code_bytes@, q)
                == Ok::<Seq<InstructionV>, Error>(cv.code) by {
                lemma_extends_trans(at1, pool@, q);
            }
            assert forall|q: Pool, rest: Seq<u8>| extends(q, pool@) implies #[trigger] parse_counted(table + rest, q, exception_parser())
                == Ok::<(Seq<ExceptionV>, Seq<u8>), Error>((cv.exception_table, rest)) by {
                lemma_extends_trans(at2, pool@, q);
            }
            lemma_code_info(b@, cv, code_bytes@, table, attrs, pool@);
        }
    }
    Ok(b)
}

/// Writes attributes: a two-byte count, then each attribute's name index,
/// length and info bytes.
pub fn write_attributes(attributes: &Vec<Attribute>, pool: &mut ConstantPool, writer: &mut ByteWriter) -> (r: Result<(), Error>)
    ensures
        r is Ok ==> (crate::constant_pool::linked(old(pool)@) ==> crate::constant_pool::linked(final(pool)@)),
        r is Ok <==> attributes@.len() <= 0xFFFF && attrs_each_fit(attrs_view(attributes@)) && old(pool)@.len()
            + attrs_need(attrs_view(attributes@)) <= 0xFFFF,
        match r {
            Ok(()) => extends(final(pool)@, old(pool)@)
                && final(pool)@.len() == old(pool)@.len() + attrs_need(attrs_view(attributes@))
                && texts_fit(final(pool)@) == (texts_fit(old(pool)@) && attrs_texts(attrs_view(attributes@)))
                && final(writer)@.len() == old(writer)@.len() + 2 + attrs_items_len(attrs_view(attributes@))
                && final(writer)@.take(old(writer)@.len() as int) == old(writer)@
                && (attrs_canonical(attrs_view(attributes@)) ==> encodes_attributes(
                    final(writer)@.skip(old(writer)@.len() as int),
                    attrs_view(attributes@),
                    final(pool)@,
                ))
                && exists|raws: Seq<(u16, Seq<u8>)>| #[trigger] raw_layout(
                    raws,
                    attrs_view(attributes@),
                    final(pool)@,
                    final(writer)@.skip(old(writer)@.len() as int),
                ),
            Err(e) => encode_error_kind(e),
        },
    decreases attrs_size(attributes@), 3nat,
{
    if attributes.len() > 0xFFFF {
        return Err(Error::TooLarge);
    }
    let ghost v = attrs_view(attributes@);
    let ghost at0 = pool@;
    let ghost w0 = writer@;
    writer.write(attributes.len() as u16);
    let ghost w1 = writer@;
    let ghost mut chunks: Seq<Seq<u8>> = Seq::empty();
    let ghost mut raws: Seq<(u16, Seq<u8>)> = Seq::empty();
    let mut k: usize = 0;
    proof {
        lemma_extends_refl(at0);
        lemma_attrs_view_len(attributes@);
        assert(w1 + flatten(chunks) =~= w1);
        assert(v.take(0) =~= Seq::<AttributeV>::empty());
    }
    while k < attributes.len()
        invariant
            k <= attributes@.len(),
            attributes@.len() <= 0xFFFF,
            v == attrs_view(attributes@),
            v.len() == attributes@.len(),
            at0 == old(pool)@,
            w0 == old(writer)@,
            w1 == w0 + bytes16(attributes@.len() as u16),
            extends(pool@, at0),
            crate::constant_pool::linked(at0) ==> crate::constant_pool::linked(pool@),
            writer@ == w1 + flatten(chunks),
            chunks.len() == k,
            raws.len() == k,
            chunks == raws.map_values(|r: (u16, Seq<u8>)| raw_bytes(r)),
            forall|j: int|
                0 <= j < k ==> {
                    &&& utf8_at(pool@, (#[trigger] raws[j]).0) == Ok::<Seq<char>, Error>(attr_name(v[j]))
                    &&& raws[j].1.len() == info_len(v[j])
                    &&& (v[j] matches AttributeV::Unknown(n, i) ==> raws[j].1 == i)
                },
            forall|j: int| 0 <= j < k ==> (#[trigger] chunks[j]).len() >= 1,
            pool@.len() == at0.len() + attrs_need(v.take(k as int)),
            flatten(chunks).len() == attrs_items_len(v.take(k as int)),
            texts_fit(pool@) == (texts_fit(at0) && attrs_texts(v.take(k as int))),
            attrs_each_fit(v.take(k as int)),
            attrs_canonical(v) ==> forall|j: int, q: Pool, rest: Seq<u8>| 0 <= j < k && extends(q, pool@) ==> #[trigger] decode_one_attribute(chunks[j] + rest, q)
                == Ok::<(AttributeV, Seq<u8>), Error>((v[j], rest)),
        decreases attributes@.len() - k,
    {
        let ghost at1 = pool@;
        let ghost w2 = writer@;
        proof {
            lemma_attrs_index(attributes@, k as int);
            lemma_attrs_step(v, k as int);
        }
        let raw = match attributes[k].unresolve(pool) {
            Ok(raw) => raw,
            Err(e) => {
                return Err(e);
            },
        };
        let ghost at2 = pool@;
        writer.write(raw.name_index);
        writer.write(raw.info.len() as u32);
        writer.write_bytes(raw.info.as_slice());
        proof {
            let b = bytes16(raw.name_index) + bytes32(raw.info@.len() as u32) + raw.info@;
            assert(writer@ =~= w2 + b);
            lemma_flatten_push(chunks, b);
            assert(v.take(k + 1) == v.take(k + 1));
            lemma_extends_trans(at0, at1, pool@);
            if attrs_canonical(v) {
                assert forall|j: int, q: Pool, rest: Seq<u8>| 0 <= j < k + 1 && extends(q, pool@) implies #[trigger] decode_one_attribute(
                    chunks.push(b)[j] + rest,
                    q,
                ) == Ok::<(AttributeV, Seq<u8>), Error>((v[j], rest)) by {
                    lemma_extends_trans(at1, pool@, q);
                    if j == k {
                        lemma_one_attribute(raw.name_index, raw.info@, v[j], pool@, q, rest);
                    } else {
                        assert(chunks.push(b)[j] == chunks[j]);
                    }
                }
            }
            assert forall|j: int| 0 <= j < k implies utf8_at(pool@, (#[trigger] raws[j]).0) == Ok::<Seq<char>, Error>(attr_name(v[j])) by {
                lemma_lookups_stable(at1, pool@, raws[j].0);
            }
            let nr = (raw.name_index, raw.info@);
            assert(raws.push(nr).map_values(|r: (u16, Seq<u8>)| raw_bytes(r)) =~= chunks.push(b));
            raws = raws.push(nr);
            chunks = chunks.push(b);
        }
        k = k + 1;
    }
    proof {
        use_type_invariant(&*pool);
        assert(v.take(k as int) =~= v);
        assert(writer@.take(w0.len() as int) =~= w0);
        let items = flatten(chunks);
        assert(writer@.skip(w0.len() as int) =~= bytes16(attributes@.len() as u16) + items);
        assert(raw_layout(raws, v, pool@, writer@.skip(w0.len() as int)));
        if attrs_canonical(v) {
            assert forall|q: Pool, rest: Seq<u8>| extends(q, pool@) implies #[trigger] decode_counted_attributes(
                writer@.skip(w0.len() as int) + rest,
                q,
            ) == Ok::<(Seq<AttributeV>, Seq<u8>), Error>((v, rest)) by {
                assert(writer@.skip(w0.len() as int) + rest =~= bytes16(attributes@.len() as u16) + (items + rest));
                lemma_parse_u16(attributes@.len() as u16, items + rest);
                assert forall|j: int, r: Seq<u8>| 0 <= j < chunks.len() implies #[trigger] decode_one_attribute(chunks[j] + r, q)
                    == Ok::<(AttributeV, Seq<u8>), Error>((v[j], r)) by {}
                lemma_attribute_chunks(chunks, v, pool@, q, rest);
            }
        }
    }
    Ok(())
}

impl Attribute {
    /// The attribute's name on the wire.
    pub fn name(&self) -> (r: String)
        ensures
            r@ == attr_name(self@),
    {
        match self {
            Attribute::ConstantValue(_) => String::from_str("ConstantValue"),
            Attribute::Code(_) => String::from_str("Code"),
            Attribute::SourceFile(_) => String::from_str("SourceFile"),
            Attribute::LineNumberTable(_) => String::from_str("LineNumberTable"),
            Attribute::LocalVariableTable(_) => String::from_str("LocalVariableTable"),
            Attribute::MethodParameters(_) => String::from_str("MethodParameters"),
            Attribute::Synthetic => String::from_str("Synthetic"),
            Attribute::Deprecated => String::from_str("Deprecated"),
            Attribute::Signature(_) => String::from_str("Signature"),
            Attribute::Unknown { name, .. } => name.clone(),
        }
    }

    /// The info bytes of this attribute, interning what it refers to.
    fn encode_info(&self, pool: &mut ConstantPool) -> (r: Result<Vec<u8>, Error>)
        ensures
            r is Ok ==> (crate::constant_pool::linked(old(pool)@) ==> crate::constant_pool::linked(final(pool)@)),
            r is Ok <==> attr_fits(self@) && old(pool)@.len() + info_need(self@) <= 0xFFFF,
            match r {
                Ok(b) => body_facts(self@, b@, old(pool)@, final(pool)@) && b@.len() <= 0xFFFF_FFFF
                    && (self@ matches AttributeV::ConstantValue(c) ==> final(pool)@ == constant_pushes(old(pool)@, c)
                        && b@ == bytes16((old(pool)@.len() + if c is String { 1int } else { 0int }) as u16))
                    && (self@ matches AttributeV::Code(cv) ==> b@.take(8) == bytes16(cv.max_stack) + bytes16(cv.max_locals)
                        + bytes32(code_len(cv.code) as u32))
                    && (attr_canonical(self@) ==> encodes_info(b@, self@, final(pool)@))
                    && (self@ matches AttributeV::Unknown(n, i) ==> b@ == i),
                Err(e) => encode_error_kind(e),
            },
        decreases attr_size(*self), 1nat,
    {
        proof {
            use_type_invariant(&*pool);
            lemma_names_distinct();
        }
        match self {
            Attribute::ConstantValue(c) => constant_value_info(c, pool),
            Attribute::Code(c) => code_info(c, pool),
            Attribute::SourceFile(t) => text_info(t, pool, Ghost(self@)),
            Attribute::Signature(t) => text_info(t, pool, Ghost(self@)),
            Attribute::LineNumberTable(v) => {
                let ghost at0 = pool@;
                let b = table_info(v, pool)?;
                proof {
                    assert(b@ + Seq::<u8>::empty() =~= b@);
                    assert forall|q: Pool| extends(q, pool@) implies #[trigger] decode_attribute(attr_name(self@), b@, q)
                        == Ok::<AttributeV, Error>(self@) by {
                        assert(parse_counted(b@ + Seq::<u8>::empty(), q, line_number_parser()) == Ok::<(Seq<(u16, u16)>, Seq<u8>), Error>((seq_view(v@), Seq::<u8>::empty())));
                    }
                }
                Ok(b)
            },
            Attribute::LocalVariableTable(v) => {
                let b = table_info(v, pool)?;
                proof {
                    assert(b@ + Seq::<u8>::empty() =~= b@);
                    assert forall|q: Pool| extends(q, pool@) implies #[trigger] decode_attribute(attr_name(self@), b@, q)
                        == Ok::<AttributeV, Error>(self@) by {
                        assert(parse_counted(b@ + Seq::<u8>::empty(), q, local_variable_parser()) == Ok::<(Seq<LocalVariableV>, Seq<u8>), Error>((seq_view(v@), Seq::<u8>::empty())));
                    }
                }
                Ok(b)
            },
            Attribute::MethodParameters(v) => parameters_info(v, pool),
            Attribute::Synthetic | Attribute::Deprecated => {
                proof {
                    lemma_extends_refl(pool@);
                }
                Ok(Vec::new())
            },
            Attribute::Unknown { name, info } => {
                proof {
                    lemma_extends_refl(pool@);
                }
                let b = vstd::slice::slice_to_vec(info.as_slice());
                if b.len() > 0xFFFF_FFFF {
                    return Err(Error::TooLarge);
                }
                Ok(b)
            },
        }
    }

    /// Interns the attribute's name and what it refers to, and returns the
    /// attribute as it stands on the wire.
    pub fn unresolve(&self, pool: &mut ConstantPool) -> (r: Result<UnresolvedAttribute, Error>)
        ensures
            r is Ok ==> (crate::constant_pool::linked(old(pool)@) ==> crate::constant_pool::linked(final(pool)@)),
            r is Ok <==> attr_fits(self@) && old(pool)@.len() + 1 + info_need(self@) <= 0xFFFF,
            match r {
                Ok(raw) => extends(final(pool)@, old(pool)@)
                    && raw.name_index as int == old(pool)@.len()
                    && final(pool)@[old(pool)@.len() as int] == Some(Cp::Utf8(attr_name(self@)))
                    && final(pool)@.len() == old(pool)@.len() + 1 + info_need(self@)
                    && raw.info@.len() == info_len(self@)
                    && texts_fit(final(pool)@) == (texts_fit(old(pool)@) && attr_texts(self@))
                    && (self@ matches AttributeV::ConstantValue(c) ==> final(pool)@ == constant_pushes(
                        pushed(old(pool)@, Cp::Utf8(attr_name(self@))),
                        c,
                    ) && raw.info@ == bytes16((old(pool)@.len() + if c is String { 2int } else { 1int }) as u16))
                    && (self@ matches AttributeV::Code(cv) ==> raw.info@.take(8) == bytes16(cv.max_stack) + bytes16(
                        cv.max_locals,
                    ) + bytes32(code_len(cv.code) as u32))
                    && utf8_at(final(pool)@, raw.name_index) == Ok::<Seq<char>, Error>(attr_name(self@))
                    && raw.info@.len() <= 0xFFFF_FFFF
                    && (attr_canonical(self@) ==> encodes_info(raw.info@, self@, final(pool)@))
                    && (self@ matches AttributeV::Unknown(n, i) ==> raw.info@ == i),
                Err(e) => encode_error_kind(e),
            },
        decreases attr_size(*self), 2nat,
    {
        let name = self.name();
        let ghost at0 = pool@;
        let name_index = intern_utf8(&name, pool)?;
        let ghost at1 = pool@;
        let info = self.encode_info(pool)?;
        proof {
            lemma_extends_trans(at0, at1, pool@);
            lemma_lookups_stable(at1, pool@, name_index);
        }
        Ok(UnresolvedAttribute { name_index, info })
    }
}


proof fn lemma_parameters_canonical(s: Seq<u8>, n: nat, p: Pool)
    ensures
        parse_list(s, n, p, parameter_parser()) matches Ok((v, r)) ==> all_canonical::<MethodParameter>(v),
{
    assert forall|x: Seq<u8>| #[trigger] (parameter_parser())(x, p) is Ok implies (|v: ParameterV| MethodParameter::canonical(v))((parameter_parser())(x, p)->Ok_0.0) by {
        if let Ok((ni, x1)) = parse_u16(x) {
            if let Ok((bits, x2)) = parse_u16(x1) {
                lemma_flags_round_trip::<MethodParameterAccessFlags>(bits);
            }
        }
    }
    lemma_parse_list_all(s, n, p, parameter_parser(), |v: ParameterV| MethodParameter::canonical(v));
}

/// An attribute whose name is not a supported one decodes to `Unknown`
/// with its name and bytes as they are.
pub proof fn lemma_unknown_attribute(name: Seq<char>, info: Seq<u8>, p: Pool)
    requires
        !known_name(name),
    ensures
        decode_attribute(name, info, p) == Ok::<AttributeV, Error>(AttributeV::Unknown(name, info)),
{
}

/// Every attribute that decoding gives is canonical: its flag sets are in
/// decoded form and an `Unknown` attribute never carries a supported name.
pub proof fn lemma_decoded_attribute_canonical(name: Seq<char>, info: Seq<u8>, p: Pool)
    ensures
        decode_attribute(name, info, p) matches Ok(a) ==> attr_canonical(a),
    decreases info.len(), 1nat,
{
    if name == "Code"@ {
        lemma_decoded_code_canonical(info, p);
    } else if name == "MethodParameters"@ {
        if let Ok((n, s1)) = parse_u8(info) {
            lemma_parameters_canonical(s1, n as nat, p);
        }
    }
}

proof fn lemma_decoded_code_canonical(info: Seq<u8>, p: Pool)
    ensures
        decode_code_body(info, p) matches Ok(a) ==> attr_canonical(a),
    decreases info.len(), 0nat,
{
    if let Ok((max_stack, s1)) = parse_u16(info) {
        if let Ok((max_locals, s2)) = parse_u16(s1) {
            if let Ok((n, s3)) = parse_u32(s2) {
                if let Ok((bytes, s4)) = parse_bytes(s3, n as nat) {
                    if let Ok((table, s5)) = parse_counted(s4, p, exception_parser()) {
                        if let Ok((count, s6)) = parse_u16(s5) {
                            if s6.len() < info.len() {
                                lemma_decoded_attributes_canonical(s6, count as nat, p);
                            }
                        }
                    }
                }
            }
        }
    }
}

proof fn lemma_decoded_one_canonical(s: Seq<u8>, p: Pool)
    ensures
        decode_one_attribute(s, p) matches Ok((a, r)) ==> attr_canonical(a),
    decreases s.len(), 0nat,
{
    if let Ok(((ni, info), s1)) = parse_raw_attribute(s) {
        if info.len() < s.len() {
            if let Ok(name) = utf8_at(p, ni) {
                lemma_decoded_attribute_canonical(name, info, p);
            }
        }
    }
}

/// Every run of attributes that decoding gives is canonical.
pub proof fn lemma_decoded_attributes_canonical(s: Seq<u8>, n: nat, p: Pool)
    ensures
        decode_attributes(s, n, p) matches Ok((v, r)) ==> attrs_canonical(v),
    decreases s.len(), n,
{
    if n > 0 {
        lemma_decoded_one_canonical(s, p);
        if let Ok((a, s1)) = decode_one_attribute(s, p) {
            if s1.len() < s.len() {
                lemma_decoded_attributes_canonical(s1, (n - 1) as nat, p);
                if let Ok((rest, s2)) = decode_attributes(s1, (n - 1) as nat, p) {
                    assert((seq![a] + rest).drop_first() =~= rest);
                }
            }
        }
    }
}

} // verus!
