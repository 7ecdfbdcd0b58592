use vstd::prelude::*;
use crate::error::{Error, view_result};
use crate::mutf8::{decode_modified_utf8, decode_string, encode, encode_modified_utf8, lemma_decode_encode};
use crate::reader::{ByteReader, outcome, parse_bytes, parse_u16, parse_u32, parse_u8};
use crate::writer::{ByteWriter, bytes16, bytes32, lemma_bytes16, lemma_bytes32};

verus! {

/// The kind of a constant pool entry.
#[derive(Debug, Clone, Copy, PartialEq, Eq, Structural)]
pub enum CpTag {
    Utf8,
    Integer,
    Float,
    Long,
    Double,
    Class,
    String,
    Fieldref,
    Methodref,
    InterfaceMethodref,
    NameAndType,
    MethodHandle,
    MethodType,
    Dynamic,
    InvokeDynamic,
    Module,
    Package,
}

/// The wire byte of each tag.
pub open spec fn tag_byte(t: CpTag) -> u8 {
    match t {
        CpTag::Utf8 => 1,
        CpTag::Integer => 3,
        CpTag::Float => 4,
        CpTag::Long => 5,
        CpTag::Double => 6,
        CpTag::Class => 7,
        CpTag::String => 8,
        CpTag::Fieldref => 9,
        CpTag::Methodref => 10,
        CpTag::InterfaceMethodref => 11,
        CpTag::NameAndType => 12,
        CpTag::MethodHandle => 15,
        CpTag::MethodType => 16,
        CpTag::Dynamic => 17,
        CpTag::InvokeDynamic => 18,
        CpTag::Module => 19,
        CpTag::Package => 20,
    }
}

/// The tag that a wire byte names, if any.
pub open spec fn tag_of_byte(b: u8) -> Option<CpTag> {
    if b == 1 {
        Some(CpTag::Utf8)
    } else if b == 3 {
        Some(CpTag::Integer)
    } else if b == 4 {
        Some(CpTag::Float)
    } else if b == 5 {
        Some(CpTag::Long)
    } else if b == 6 {
        Some(CpTag::Double)
    } else if b == 7 {
        Some(CpTag::Class)
    } else if b == 8 {
        Some(CpTag::String)
    } else if b == 9 {
        Some(CpTag::Fieldref)
    } else if b == 10 {
        Some(CpTag::Methodref)
    } else if b == 11 {
        Some(CpTag::InterfaceMethodref)
    } else if b == 12 {
        Some(CpTag::NameAndType)
    } else if b == 15 {
        Some(CpTag::MethodHandle)
    } else if b == 16 {
        Some(CpTag::MethodType)
    } else if b == 17 {
        Some(CpTag::Dynamic)
    } else if b == 18 {
        Some(CpTag::InvokeDynamic)
    } else if b == 19 {
        Some(CpTag::Module)
    } else if b == 20 {
        Some(CpTag::Package)
    } else {
        None
    }
}

impl CpTag {
    /// The wire byte of this tag.
    pub fn byte(&self) -> (r: u8)
        ensures
            r == tag_byte(*self),
            tag_of_byte(r) == Some(*self),
    {
        match self {
            CpTag::Utf8 => 1,
            CpTag::Integer => 3,
            CpTag::Float => 4,
            CpTag::Long => 5,
            CpTag::Double => 6,
            CpTag::Class => 7,
            CpTag::String => 8,
            CpTag::Fieldref => 9,
            CpTag::Methodref => 10,
            CpTag::InterfaceMethodref => 11,
            CpTag::NameAndType => 12,
            CpTag::MethodHandle => 15,
            CpTag::MethodType => 16,
            CpTag::Dynamic => 17,
            CpTag::InvokeDynamic => 18,
            CpTag::Module => 19,
            CpTag::Package => 20,
        }
    }

    /// The tag that `b` names; fails with `BadConstantTag` outside
    /// `{1, 3..=12, 15..=20}`.
    pub fn from_byte(b: u8) -> (r: Result<CpTag, Error>)
        ensures
            match tag_of_byte(b) {
                Some(t) => r == Ok::<CpTag, Error>(t),
                None => r == Err::<CpTag, Error>(Error::BadConstantTag { value: b }),
            },
    {
        match b {
            1 => Ok(CpTag::Utf8),
            3 => Ok(CpTag::Integer),
            4 => Ok(CpTag::Float),
            5 => Ok(CpTag::Long),
            6 => Ok(CpTag::Double),
            7 => Ok(CpTag::Class),
            8 => Ok(CpTag::String),
            9 => Ok(CpTag::Fieldref),
            10 => Ok(CpTag::Methodref),
            11 => Ok(CpTag::InterfaceMethodref),
            12 => Ok(CpTag::NameAndType),
            15 => Ok(CpTag::MethodHandle),
            16 => Ok(CpTag::MethodType),
            17 => Ok(CpTag::Dynamic),
            18 => Ok(CpTag::InvokeDynamic),
            19 => Ok(CpTag::Module),
            20 => Ok(CpTag::Package),
            _ => Err(Error::BadConstantTag { value: b }),
        }
    }
}

/// A constant pool entry. `Float` and `Double` hold IEEE 754 bit patterns.
#[derive(Debug, Clone)]
#[allow(inconsistent_fields)]
pub enum CpInfo {
    Utf8 { string: String },
    Integer { value: u32 },
    Float { bits: u32 },
    Long { value: u64 },
    Double { bits: u64 },
    Class { name_index: u16 },
    String { string_index: u16 },
    Fieldref { class_index: u16, name_and_type_index: u16 },
    Methodref { class_index: u16, name_and_type_index: u16 },
    InterfaceMethodref { class_index: u16, name_and_type_index: u16 },
    NameAndType { name_index: u16, descriptor_index: u16 },
    MethodHandle { reference_kind: u8, reference_index: u16 },
    MethodType { descriptor_index: u16 },
    Dynamic { bootstrap_method_attr_index: u16, name_and_type_index: u16 },
    InvokeDynamic { bootstrap_method_attr_index: u16, name_and_type_index: u16 },
    Module { name_index: u16 },
    Package { name_index: u16 },
}

/// The value of a constant pool entry: `CpInfo` with its text as characters.
pub enum Cp {
    Utf8(Seq<char>),
    Integer(u32),
    Float(u32),
    Long(u64),
    Double(u64),
    Class(u16),
    String(u16),
    Fieldref(u16, u16),
    Methodref(u16, u16),
    InterfaceMethodref(u16, u16),
    NameAndType(u16, u16),
    MethodHandle(u8, u16),
    MethodType(u16),
    Dynamic(u16, u16),
    InvokeDynamic(u16, u16),
    Module(u16),
    Package(u16),
}

impl View for CpInfo {
    type V = Cp;

    open spec fn view(&self) -> Cp {
        match self {
            CpInfo::Utf8 { string } => Cp::Utf8(string@),
            CpInfo::Integer { value } => Cp::Integer(*value),
            CpInfo::Float { bits } => Cp::Float(*bits),
            CpInfo::Long { value } => Cp::Long(*value),
            CpInfo::Double { bits } => Cp::Double(*bits),
            CpInfo::Class { name_index } => Cp::Class(*name_index),
            CpInfo::String { string_index } => Cp::String(*string_index),
            CpInfo::Fieldref { class_index, name_and_type_index } => Cp::Fieldref(
                *class_index,
                *name_and_type_index,
            ),
            CpInfo::Methodref { class_index, name_and_type_index } => Cp::Methodref(
                *class_index,
                *name_and_type_index,
            ),
            CpInfo::InterfaceMethodref { class_index, name_and_type_index } => Cp::InterfaceMethodref(
                *class_index,
                *name_and_type_index,
            ),
            CpInfo::NameAndType { name_index, descriptor_index } => Cp::NameAndType(
                *name_index,
                *descriptor_index,
            ),
            CpInfo::MethodHandle { reference_kind, reference_index } => Cp::MethodHandle(
                *reference_kind,
                *reference_index,
            ),
            CpInfo::MethodType { descriptor_index } => Cp::MethodType(*descriptor_index),
            CpInfo::Dynamic { bootstrap_method_attr_index, name_and_type_index } => Cp::Dynamic(
                *bootstrap_method_attr_index,
                *name_and_type_index,
            ),
            CpInfo::InvokeDynamic { bootstrap_method_attr_index, name_and_type_index } =>
                Cp::InvokeDynamic(*bootstrap_method_attr_index, *name_and_type_index),
            CpInfo::Module { name_index } => Cp::Module(*name_index),
            CpInfo::Package { name_index } => Cp::Package(*name_index),
        }
    }
}

/// The tag of a constant.
pub open spec fn cp_tag(c: Cp) -> CpTag {
    match c {
        Cp::Utf8(_) => CpTag::Utf8,
        Cp::Integer(_) => CpTag::Integer,
        Cp::Float(_) => CpTag::Float,
        Cp::Long(_) => CpTag::Long,
        Cp::Double(_) => CpTag::Double,
        Cp::Class(_) => CpTag::Class,
        Cp::String(_) => CpTag::String,
        Cp::Fieldref(..) => CpTag::Fieldref,
        Cp::Methodref(..) => CpTag::Methodref,
        Cp::InterfaceMethodref(..) => CpTag::InterfaceMethodref,
        Cp::NameAndType(..) => CpTag::NameAndType,
        Cp::MethodHandle(..) => CpTag::MethodHandle,
        Cp::MethodType(_) => CpTag::MethodType,
        Cp::Dynamic(..) => CpTag::Dynamic,
        Cp::InvokeDynamic(..) => CpTag::InvokeDynamic,
        Cp::Module(_) => CpTag::Module,
        Cp::Package(_) => CpTag::Package,
    }
}

/// `Long` and `Double` take two pool slots.
pub open spec fn is_wide(c: Cp) -> bool {
    c is Long || c is Double
}

/// How many pool slots a constant takes.
pub open spec fn slots(c: Cp) -> nat {
    if is_wide(c) { 2 } else { 1 }
}

/// A 64-bit value from its high and low 32-bit halves.
pub open spec fn spec_long(high: u32, low: u32) -> u64 {
    (high as int * 0x1_0000_0000 + low as int) as u64
}

/// Joins two 32-bit halves into a 64-bit value, high half first.
pub fn long(high_bytes: u32, low_bytes: u32) -> (r: u64)
    ensures
        r == spec_long(high_bytes, low_bytes),
        r as int == high_bytes as int * 0x1_0000_0000 + low_bytes as int,
{
    (high_bytes as u64) * 0x1_0000_0000 + low_bytes as u64
}

/// Splits a 64-bit value into its high and low 32-bit halves.
pub fn long2bytes(long: u64) -> (r: (u32, u32))
    ensures
        r.0 as int == long as int / 0x1_0000_0000,
        r.1 as int == long as int % 0x1_0000_0000,
        spec_long(r.0, r.1) == long,
{
    ((long / 0x1_0000_0000) as u32, (long % 0x1_0000_0000) as u32)
}

/// Reads a constant's payload, given its tag, off the front of `s`.
pub open spec fn parse_payload(tag: CpTag, s: Seq<u8>) -> Result<(Cp, Seq<u8>), Error> {
    match tag {
        CpTag::Utf8 => match parse_u16(s) {
            Err(e) => Err(e),
            Ok((n, s1)) => match parse_bytes(s1, n as nat) {
                Err(e) => Err(e),
                Ok((b, s2)) => match decode_string(b) {
                    Some(text) => Ok((Cp::Utf8(text), s2)),
                    None => Err(Error::BadUtf8),
                },
            },
        },
        CpTag::Integer => match parse_u32(s) {
            Err(e) => Err(e),
            Ok((v, s1)) => Ok((Cp::Integer(v), s1)),
        },
        CpTag::Float => match parse_u32(s) {
            Err(e) => Err(e),
            Ok((v, s1)) => Ok((Cp::Float(v), s1)),
        },
        CpTag::Long => match parse_two_u32(s) {
            Err(e) => Err(e),
            Ok(((h, l), s1)) => Ok((Cp::Long(spec_long(h, l)), s1)),
        },
        CpTag::Double => match parse_two_u32(s) {
            Err(e) => Err(e),
            Ok(((h, l), s1)) => Ok((Cp::Double(spec_long(h, l)), s1)),
        },
        CpTag::Class => match parse_u16(s) {
            Err(e) => Err(e),
            Ok((v, s1)) => Ok((Cp::Class(v), s1)),
        },
        CpTag::String => match parse_u16(s) {
            Err(e) => Err(e),
            Ok((v, s1)) => Ok((Cp::String(v), s1)),
        },
        CpTag::Fieldref => match parse_two_u16(s) {
            Err(e) => Err(e),
            Ok(((a, b), s1)) => Ok((Cp::Fieldref(a, b), s1)),
        },
        CpTag::Methodref => match parse_two_u16(s) {
            Err(e) => Err(e),
            Ok(((a, b), s1)) => Ok((Cp::Methodref(a, b), s1)),
        },
        CpTag::InterfaceMethodref => match parse_two_u16(s) {
            Err(e) => Err(e),
            Ok(((a, b), s1)) => Ok((Cp::InterfaceMethodref(a, b), s1)),
        },
        CpTag::NameAndType => match parse_two_u16(s) {
            Err(e) => Err(e),
            Ok(((a, b), s1)) => Ok((Cp::NameAndType(a, b), s1)),
        },
        CpTag::MethodHandle => match parse_u8(s) {
            Err(e) => Err(e),
            Ok((k, s1)) => match parse_u16(s1) {
                Err(e) => Err(e),
                Ok((i, s2)) => Ok((Cp::MethodHandle(k, i), s2)),
            },
        },
        CpTag::MethodType => match parse_u16(s) {
            Err(e) => Err(e),
            Ok((v, s1)) => Ok((Cp::MethodType(v), s1)),
        },
        CpTag::Dynamic => match parse_two_u16(s) {
            Err(e) => Err(e),
            Ok(((a, b), s1)) => Ok((Cp::Dynamic(a, b), s1)),
        },
        CpTag::InvokeDynamic => match parse_two_u16(s) {
            Err(e) => Err(e),
            Ok(((a, b), s1)) => Ok((Cp::InvokeDynamic(a, b), s1)),
        },
        CpTag::Module => match parse_u16(s) {
            Err(e) => Err(e),
            Ok((v, s1)) => Ok((Cp::Module(v), s1)),
        },
        CpTag::Package => match parse_u16(s) {
            Err(e) => Err(e),
            Ok((v, s1)) => Ok((Cp::Package(v), s1)),
        },
    }
}

pub open spec fn parse_two_u16(s: Seq<u8>) -> Result<((u16, u16), Seq<u8>), Error> {
    match parse_u16(s) {
        Err(e) => Err(e),
        Ok((a, s1)) => match parse_u16(s1) {
            Err(e) => Err(e),
            Ok((b, s2)) => Ok(((a, b), s2)),
        },
    }
}

pub open spec fn parse_two_u32(s: Seq<u8>) -> Result<((u32, u32), Seq<u8>), Error> {
    match parse_u32(s) {
        Err(e) => Err(e),
        Ok((a, s1)) => match parse_u32(s1) {
            Err(e) => Err(e),
            Ok((b, s2)) => Ok(((a, b), s2)),
        },
    }
}

/// Reads one tagged constant off the front of `s`.
#[verifier::opaque]
pub open spec fn parse_constant(s: Seq<u8>) -> Result<(Cp, Seq<u8>), Error> {
    match parse_u8(s) {
        Err(e) => Err(e),
        Ok((b, s1)) => match tag_of_byte(b) {
            None => Err(Error::BadConstantTag { value: b }),
            Some(t) => parse_payload(t, s1),
        },
    }
}

/// Reads the `n` pool slots that follow the sentinel; a wide constant fills two.
pub open spec fn parse_slots(s: Seq<u8>, n: nat) -> Result<(Seq<Option<Cp>>, Seq<u8>), Error>
    decreases n,
{
    if n == 0 {
        Ok((Seq::empty(), s))
    } else {
        match parse_constant(s) {
            Err(e) => Err(e),
            Ok((c, s1)) => if n < slots(c) {
                Err(Error::Malformed)
            } else {
                match parse_slots(s1, (n - slots(c)) as nat) {
                    Err(e) => Err(e),
                    Ok((rest, s2)) => Ok(
                        (
                            if is_wide(c) {
                                seq![Some(c), None] + rest
                            } else {
                                seq![Some(c)] + rest
                            },
                            s2,
                        ),
                    ),
                }
            }
        }
    }
}

/// Reads a constant pool: its count, then the entries of slots `1..count`.
pub open spec fn parse_pool(s: Seq<u8>) -> Result<(Seq<Option<Cp>>, Seq<u8>), Error> {
    match parse_u16(s) {
        Err(e) => Err(e),
        Ok((count, s1)) => match parse_slots(s1, if count == 0 { 0 } else { (count - 1) as nat }) {
            Err(e) => Err(e),
            Ok((slots, s2)) => Ok((seq![None::<Cp>] + slots, s2)),
        },
    }
}

/// The bytes of a constant's payload.
pub open spec fn payload_bytes(c: Cp) -> Seq<u8> {
    match c {
        Cp::Utf8(text) => bytes16(encode(text).len() as u16) + encode(text),
        Cp::Integer(v) => bytes32(v),
        Cp::Float(v) => bytes32(v),
        Cp::Long(v) => bytes32((v as int / 0x1_0000_0000) as u32) + bytes32(
            (v as int % 0x1_0000_0000) as u32,
        ),
        Cp::Double(v) => bytes32((v as int / 0x1_0000_0000) as u32) + bytes32(
            (v as int % 0x1_0000_0000) as u32,
        ),
        Cp::Class(i) => bytes16(i),
        Cp::String(i) => bytes16(i),
        Cp::Fieldref(a, b) => bytes16(a) + bytes16(b),
        Cp::Methodref(a, b) => bytes16(a) + bytes16(b),
        Cp::InterfaceMethodref(a, b) => bytes16(a) + bytes16(b),
        Cp::NameAndType(a, b) => bytes16(a) + bytes16(b),
        Cp::MethodHandle(k, i) => seq![k] + bytes16(i),
        Cp::MethodType(i) => bytes16(i),
        Cp::Dynamic(a, b) => bytes16(a) + bytes16(b),
        Cp::InvokeDynamic(a, b) => bytes16(a) + bytes16(b),
        Cp::Module(i) => bytes16(i),
        Cp::Package(i) => bytes16(i),
    }
}

/// The bytes of a tagged constant.
#[verifier::opaque]
pub open spec fn constant_bytes(c: Cp) -> Seq<u8> {
    seq![tag_byte(cp_tag(c))] + payload_bytes(c)
}

/// The bytes of one pool slot: none for an empty one.
pub open spec fn slot_bytes(o: Option<Cp>) -> Seq<u8> {
    match o {
        Some(c) => constant_bytes(c),
        None => Seq::empty(),
    }
}

/// The bytes of a run of pool slots: each entry tagged, empty slots skipped.
pub open spec fn slots_bytes(p: Seq<Option<Cp>>) -> Seq<u8>
    decreases p.len(),
{
    if p.len() == 0 {
        Seq::empty()
    } else {
        slot_bytes(p[0]) + slots_bytes(p.drop_first())
    }
}

/// The bytes of a pool: its count, then its entries.
pub open spec fn pool_bytes(p: Seq<Option<Cp>>) -> Seq<u8> {
    bytes16(p.len() as u16) + slots_bytes(p.drop_first())
}

/// Appending a constant keeps every text fitting exactly when the constant fits.
pub proof fn lemma_texts_pushed(p: Seq<Option<Cp>>, c: Cp)
    ensures
        texts_fit(pushed(p, c)) == (texts_fit(p) && fits(c)),
{
    let q = pushed(p, c);
    assert(q[p.len() as int] == Some(c));
    if texts_fit(p) && fits(c) {
        assert forall|i: int| 0 <= i < q.len() implies (#[trigger] q[i] matches Some(Cp::Utf8(t)) ==> encode(t).len() <= 0xFFFF) by {
            if i < p.len() {
                assert(q[i] == p[i]);
            }
        }
    }
    if texts_fit(q) {
        assert forall|i: int| 0 <= i < p.len() implies (#[trigger] p[i] matches Some(Cp::Utf8(t)) ==> encode(t).len() <= 0xFFFF) by {
            assert(q[i] == p[i]);
        }
    }
}

/// Slot `i` is occupied by a constant of tag `t`.
pub open spec fn tag_slot(p: Seq<Option<Cp>>, i: u16, t: CpTag) -> bool {
    (i as int) < p.len() && (p[i as int] matches Some(c) && cp_tag(c) == t)
}

/// Every index that `c` stores names an occupied slot of `p` with the tag
/// its role expects.
pub open spec fn refs_ok(p: Seq<Option<Cp>>, c: Cp) -> bool {
    match c {
        Cp::Class(n) => tag_slot(p, n, CpTag::Utf8),
        Cp::String(n) => tag_slot(p, n, CpTag::Utf8),
        Cp::MethodType(n) => tag_slot(p, n, CpTag::Utf8),
        Cp::Module(n) => tag_slot(p, n, CpTag::Utf8),
        Cp::Package(n) => tag_slot(p, n, CpTag::Utf8),
        Cp::NameAndType(a, b) => tag_slot(p, a, CpTag::Utf8) && tag_slot(p, b, CpTag::Utf8),
        Cp::Fieldref(a, b) => tag_slot(p, a, CpTag::Class) && tag_slot(p, b, CpTag::NameAndType),
        Cp::Methodref(a, b) => tag_slot(p, a, CpTag::Class) && tag_slot(p, b, CpTag::NameAndType),
        Cp::InterfaceMethodref(a, b) => tag_slot(p, a, CpTag::Class) && tag_slot(p, b, CpTag::NameAndType),
        _ => true,
    }
}

/// Every index stored in a constant of the pool is in range, occupied, and
/// has the tag that its role expects.
pub open spec fn linked(p: Seq<Option<Cp>>) -> bool {
    forall|i: int| 0 <= i < p.len() && #[trigger] p[i] is Some ==> refs_ok(p, p[i]->0)
}

proof fn lemma_refs_ok_extend(p: Seq<Option<Cp>>, q: Seq<Option<Cp>>, c: Cp)
    requires
        refs_ok(p, c),
        p.len() <= q.len(),
        forall|i: int| 0 <= i < p.len() ==> q[i] == p[i],
    ensures
        refs_ok(q, c),
{
}

/// Appending a constant whose indices are sound keeps the pool linked.
pub proof fn lemma_linked_pushed(p: Seq<Option<Cp>>, c: Cp)
    requires
        linked(p),
        refs_ok(p, c),
    ensures
        linked(pushed(p, c)),
{
    let q = pushed(p, c);
    assert forall|i: int| 0 <= i < q.len() && #[trigger] q[i] is Some implies refs_ok(q, q[i]->0) by {
        assert forall|j: int| 0 <= j < p.len() implies q[j] == p[j] by {}
        if i < p.len() {
            assert(q[i] == p[i]);
            lemma_refs_ok_extend(p, q, p[i]->0);
        } else {
            assert(q[i] == Some(c));
            lemma_refs_ok_extend(p, q, c);
        }
    }
}

/// A text fits the two-byte length field of a `Utf8` constant.
pub open spec fn text_fits(t: Seq<char>) -> bool {
    encode(t).len() <= 0xFFFF
}

/// Every text constant of the pool fits the two-byte length field.
pub open spec fn texts_fit(p: Seq<Option<Cp>>) -> bool {
    forall|i: int|
        0 <= i < p.len() ==> (#[trigger] p[i] matches Some(Cp::Utf8(t)) ==> encode(t).len()
            <= 0xFFFF)
}

/// Slot `i` holds a wide constant.
pub open spec fn wide_at(p: Seq<Option<Cp>>, i: int) -> bool {
    p[i] matches Some(c) && is_wide(c)
}

/// Slots `1..` of a pool: each empty slot follows a wide constant and each wide
/// constant is followed by an empty slot.
pub open spec fn slots_wf(p: Seq<Option<Cp>>) -> bool {
    &&& forall|i: int| 0 <= i < p.len() ==> (#[trigger] p[i] is None <==> (i >= 1 && wide_at(p, i - 1)))
    &&& forall|i: int| 0 <= i < p.len() ==> #[trigger] wide_at(p, i) ==> i + 1 < p.len()
}

/// A well-formed pool: slot 0 is the empty sentinel, the slots after it are
/// laid out as `slots_wf` says, and the count fits two bytes.
pub open spec fn pool_wf(p: Seq<Option<Cp>>) -> bool {
    &&& 1 <= p.len() <= 0xFFFF
    &&& p[0] is None
    &&& slots_wf(p.drop_first())
}


proof fn lemma_long_halves(v: u64)
    ensures
        spec_long((v as int / 0x1_0000_0000) as u32, (v as int % 0x1_0000_0000) as u32) == v,
{
    assert((v as int / 0x1_0000_0000) * 0x1_0000_0000 + v as int % 0x1_0000_0000 == v as int)
        by (nonlinear_arith);
    assert(0 <= v as int / 0x1_0000_0000 < 0x1_0000_0000) by (nonlinear_arith)
        requires 0 <= v < 0x1_0000_0000_0000_0000;
}

pub proof fn lemma_parse_u16(v: u16, rest: Seq<u8>)
    ensures
        parse_u16(bytes16(v) + rest) == Ok::<(u16, Seq<u8>), Error>((v, rest)),
{
    lemma_bytes16(v);
    assert((bytes16(v) + rest).skip(2) =~= rest);
}

pub proof fn lemma_parse_u32(v: u32, rest: Seq<u8>)
    ensures
        parse_u32(bytes32(v) + rest) == Ok::<(u32, Seq<u8>), Error>((v, rest)),
{
    lemma_bytes32(v);
    assert((bytes32(v) + rest).skip(4) =~= rest);
}

pub proof fn lemma_parse_two_u16(a: u16, b: u16, rest: Seq<u8>)
    ensures
        parse_two_u16(bytes16(a) + bytes16(b) + rest) == Ok::<((u16, u16), Seq<u8>), Error>(((a, b), rest)),
{
    lemma_parse_u16(b, rest);
    assert(bytes16(a) + bytes16(b) + rest =~= bytes16(a) + (bytes16(b) + rest));
    lemma_parse_u16(a, bytes16(b) + rest);
}

proof fn lemma_parse_two_u32(a: u32, b: u32, rest: Seq<u8>)
    ensures
        parse_two_u32(bytes32(a) + bytes32(b) + rest) == Ok::<((u32, u32), Seq<u8>), Error>(((a, b), rest)),
{
    lemma_parse_u32(b, rest);
    assert(bytes32(a) + bytes32(b) + rest =~= bytes32(a) + (bytes32(b) + rest));
    lemma_parse_u32(a, bytes32(b) + rest);
}

/// A constant fits its wire form: a text's encoding fits the two-byte length.
pub open spec fn fits(c: Cp) -> bool {
    c matches Cp::Utf8(t) ==> encode(t).len() <= 0xFFFF
}

proof fn lemma_tag_byte(t: CpTag)
    ensures
        tag_of_byte(tag_byte(t)) == Some(t),
{
}

#[verifier::rlimit(40)]
proof fn lemma_payload_round_trip(c: Cp, rest: Seq<u8>)
    requires
        fits(c),
    ensures
        parse_payload(cp_tag(c), payload_bytes(c) + rest) == Ok::<(Cp, Seq<u8>), Error>((c, rest)),
{
    let p = payload_bytes(c) + rest;
    match c {
        Cp::Utf8(t) => {
            let e = encode(t);
            assert(p =~= bytes16(e.len() as u16) + (e + rest));
            lemma_parse_u16(e.len() as u16, e + rest);
            assert((e + rest).take(e.len() as int) =~= e);
            assert((e + rest).skip(e.len() as int) =~= rest);
            lemma_decode_encode(t);
        },
        Cp::Integer(v) => lemma_parse_u32(v, rest),
        Cp::Float(v) => lemma_parse_u32(v, rest),
        Cp::Long(v) => {
            lemma_parse_two_u32((v as int / 0x1_0000_0000) as u32, (v as int % 0x1_0000_0000) as u32, rest);
            lemma_long_halves(v);
        },
        Cp::Double(v) => {
            lemma_parse_two_u32((v as int / 0x1_0000_0000) as u32, (v as int % 0x1_0000_0000) as u32, rest);
            lemma_long_halves(v);
        },
        Cp::Class(i) => lemma_parse_u16(i, rest),
        Cp::String(i) => lemma_parse_u16(i, rest),
        Cp::Fieldref(x, y) => lemma_parse_two_u16(x, y, rest),
        Cp::Methodref(x, y) => lemma_parse_two_u16(x, y, rest),
        Cp::InterfaceMethodref(x, y) => lemma_parse_two_u16(x, y, rest),
        Cp::NameAndType(x, y) => lemma_parse_two_u16(x, y, rest),
        Cp::MethodHandle(k, i) => {
            assert(p =~= seq![k] + (bytes16(i) + rest));
            assert(p.skip(1) =~= bytes16(i) + rest);
            lemma_parse_u16(i, rest);
        },
        Cp::MethodType(i) => lemma_parse_u16(i, rest),
        Cp::Dynamic(x, y) => lemma_parse_two_u16(x, y, rest),
        Cp::InvokeDynamic(x, y) => lemma_parse_two_u16(x, y, rest),
        Cp::Module(i) => lemma_parse_u16(i, rest),
        Cp::Package(i) => lemma_parse_u16(i, rest),
    }
}

/// Reading back the bytes of a constant gives the constant.
pub proof fn lemma_constant_round_trip(c: Cp, rest: Seq<u8>)
    requires
        fits(c),
    ensures
        parse_constant(constant_bytes(c) + rest) == Ok::<(Cp, Seq<u8>), Error>((c, rest)),
{
    reveal(parse_constant);
    reveal(constant_bytes);
    let b = constant_bytes(c) + rest;
    let p = payload_bytes(c) + rest;
    assert(b =~= seq![tag_byte(cp_tag(c))] + p);
    assert(b.skip(1) =~= p);
    lemma_tag_byte(cp_tag(c));
    lemma_payload_round_trip(c, rest);
}

proof fn lemma_slots_skip(p: Seq<Option<Cp>>, k: int)
    requires
        slots_wf(p),
        texts_fit(p),
        1 <= k <= 2,
        k <= p.len(),
        k == 1 ==> !wide_at(p, 0),
        k == 2 ==> !wide_at(p, 1),
    ensures
        slots_wf(p.skip(k)),
        texts_fit(p.skip(k)),
{
    let q = p.skip(k);
    assert forall|i: int| 0 <= i < q.len() implies (#[trigger] q[i] is None <==> (i >= 1 && wide_at(
        q,
        i - 1,
    ))) by {
        assert(q[i] == p[i + k]);
        if i >= 1 {
            assert(wide_at(q, i - 1) == wide_at(p, i - 1 + k));
        }
    }
    assert forall|i: int| 0 <= i < q.len() && #[trigger] wide_at(q, i) implies i + 1 < q.len() by {
        assert(wide_at(q, i) == wide_at(p, i + k));
    }
    assert forall|i: int| 0 <= i < q.len() implies (#[trigger] q[i] matches Some(Cp::Utf8(t))
        ==> encode(t).len() <= 0xFFFF) by {
        assert(q[i] == p[i + k]);
    }
}

proof fn lemma_slots_round_trip(p: Seq<Option<Cp>>, rest: Seq<u8>)
    requires
        slots_wf(p),
        texts_fit(p),
    ensures
        parse_slots(slots_bytes(p) + rest, p.len()) == Ok::<(Seq<Option<Cp>>, Seq<u8>), Error>((p, rest)),
    decreases p.len(),
{
    if p.len() == 0 {
        assert(slots_bytes(p) + rest =~= rest);
        assert(p =~= Seq::<Option<Cp>>::empty());
    } else {
        assert(p[0] is Some);
        let c = p[0]->0;
        assert(fits(c));
        if is_wide(c) {
            assert(wide_at(p, 0));
            assert(p[1] is None);
            let q = p.skip(2);
            lemma_slots_skip(p, 2);
            lemma_slots_round_trip(q, rest);
            assert(p.drop_first().drop_first() =~= q);
            assert(slots_bytes(p.drop_first()) == slot_bytes(p[1]) + slots_bytes(q));
            assert(slots_bytes(p.drop_first()) =~= slots_bytes(q));
            assert(slots_bytes(p) + rest =~= constant_bytes(c) + (slots_bytes(q) + rest));
            lemma_constant_round_trip(c, slots_bytes(q) + rest);
            assert(seq![Some(c), None] + q =~= p);
            assert(q.len() == p.len() - slots(c));
        } else {
            let q = p.drop_first();
            lemma_slots_skip(p, 1);
            assert(p.skip(1) =~= q);
            lemma_slots_round_trip(q, rest);
            assert(slots_bytes(p) + rest =~= constant_bytes(c) + (slots_bytes(q) + rest));
            lemma_constant_round_trip(c, slots_bytes(q) + rest);
            assert(seq![Some(c)] + q =~= p);
            assert(q.len() == p.len() - slots(c));
        }
    }
}

/// Reading back the bytes of a well-formed pool gives the pool.
pub proof fn lemma_pool_round_trip(p: Seq<Option<Cp>>, rest: Seq<u8>)
    requires
        pool_wf(p),
        texts_fit(p),
    ensures
        parse_pool(pool_bytes(p) + rest) == Ok::<(Seq<Option<Cp>>, Seq<u8>), Error>((p, rest)),
{
    let q = p.drop_first();
    assert(texts_fit(q)) by {
        assert forall|i: int| 0 <= i < q.len() implies (#[trigger] q[i] matches Some(Cp::Utf8(t))
            ==> encode(t).len() <= 0xFFFF) by {
            assert(q[i] == p[i + 1]);
        }
    }
    assert(pool_bytes(p) + rest =~= bytes16(p.len() as u16) + (slots_bytes(q) + rest));
    lemma_parse_u16(p.len() as u16, slots_bytes(q) + rest);
    lemma_slots_round_trip(q, rest);
    assert(seq![None::<Cp>] + q =~= p);
}


/// The constant at slot `i`, or `InvalidIndex` if the slot is out of range or empty.
pub open spec fn entry_at(p: Seq<Option<Cp>>, i: u16) -> Result<Cp, Error> {
    if (i as int) < p.len() && p[i as int] is Some {
        Ok(p[i as int]->0)
    } else {
        Err(Error::InvalidIndex { index: i })
    }
}

/// The error for finding `c` at slot `i` where another kind was asked for.
pub open spec fn wrong_tag(i: u16, expected: u8, c: Cp) -> Error {
    Error::WrongTag { index: i, expected, found: tag_byte(cp_tag(c)) }
}

/// The text of the `Utf8` constant at slot `i`.
pub open spec fn utf8_at(p: Seq<Option<Cp>>, i: u16) -> Result<Seq<char>, Error> {
    match entry_at(p, i) {
        Err(e) => Err(e),
        Ok(Cp::Utf8(t)) => Ok(t),
        Ok(c) => Err(wrong_tag(i, 1, c)),
    }
}

/// The name of the `Class` constant at slot `i`.
pub open spec fn class_name_at(p: Seq<Option<Cp>>, i: u16) -> Result<Seq<char>, Error> {
    match entry_at(p, i) {
        Err(e) => Err(e),
        Ok(Cp::Class(n)) => utf8_at(p, n),
        Ok(c) => Err(wrong_tag(i, 7, c)),
    }
}

/// The name and descriptor of the `NameAndType` constant at slot `i`.
pub open spec fn name_and_type_at(p: Seq<Option<Cp>>, i: u16) -> Result<(Seq<char>, Seq<char>), Error> {
    match entry_at(p, i) {
        Err(e) => Err(e),
        Ok(Cp::NameAndType(n, d)) => match utf8_at(p, n) {
            Err(e) => Err(e),
            Ok(name) => match utf8_at(p, d) {
                Err(e) => Err(e),
                Ok(descriptor) => Ok((name, descriptor)),
            },
        },
        Ok(c) => Err(wrong_tag(i, 12, c)),
    }
}

/// The class and name-and-type indices of `c` if it is a reference of kind `kind`.
pub open spec fn ref_parts(c: Cp, kind: CpTag) -> Option<(u16, u16)> {
    match c {
        Cp::Fieldref(a, b) => if kind == CpTag::Fieldref { Some((a, b)) } else { None },
        Cp::Methodref(a, b) => if kind == CpTag::Methodref { Some((a, b)) } else { None },
        Cp::InterfaceMethodref(a, b) => if kind == CpTag::InterfaceMethodref {
            Some((a, b))
        } else {
            None
        },
        _ => None,
    }
}

/// Class name, member name and descriptor of the reference of kind `kind` at slot `i`.
pub open spec fn member_ref_at(p: Seq<Option<Cp>>, i: u16, kind: CpTag) -> Result<
    (Seq<char>, Seq<char>, Seq<char>),
    Error,
> {
    match entry_at(p, i) {
        Err(e) => Err(e),
        Ok(c) => match ref_parts(c, kind) {
            None => Err(wrong_tag(i, tag_byte(kind), c)),
            Some((ci, nti)) => match class_name_at(p, ci) {
                Err(e) => Err(e),
                Ok(class) => match name_and_type_at(p, nti) {
                    Err(e) => Err(e),
                    Ok((name, descriptor)) => Ok((class, name, descriptor)),
                },
            },
        },
    }
}

/// In a well-formed pool the slot after each `Long` or `Double` exists and
/// is empty, and no other slot but the sentinel is empty.
pub proof fn lemma_wide_slots(p: Seq<Option<Cp>>, i: int)
    requires
        pool_wf(p),
        1 <= i < p.len(),
    ensures
        wide_at(p, i) ==> i + 1 < p.len() && p[i + 1] is None,
        p[i] is None ==> i >= 2 && wide_at(p, i - 1),
{
    let q = p.drop_first();
    assert(q[i - 1] == p[i]);
    if wide_at(p, i) {
        assert(wide_at(q, i - 1));
        assert(q[i] == p[i + 1]);
    }
    if p[i] is None {
        assert(q[i - 1] is None);
        assert(wide_at(q, i - 2));
        assert(q[i - 2] == p[i - 1]);
    }
}

/// `q` holds `p` as a prefix: interning only appends.
pub open spec fn extends(q: Seq<Option<Cp>>, p: Seq<Option<Cp>>) -> bool {
    p.len() <= q.len() && q.take(p.len() as int) == p
}

pub proof fn lemma_extends_trans(a: Seq<Option<Cp>>, b: Seq<Option<Cp>>, c: Seq<Option<Cp>>)
    requires
        extends(b, a),
        extends(c, b),
    ensures
        extends(c, a),
{
    assert(c.take(a.len() as int) =~= b.take(a.len() as int));
}

pub proof fn lemma_extends_pushed(p: Seq<Option<Cp>>, c: Cp)
    ensures
        extends(pushed(p, c), p),
{
    assert(pushed(p, c).take(p.len() as int) =~= p);
}

pub proof fn lemma_extends_refl(p: Seq<Option<Cp>>)
    ensures
        extends(p, p),
{
    assert(p.take(p.len() as int) =~= p);
}

proof fn lemma_entry_stable(p: Seq<Option<Cp>>, q: Seq<Option<Cp>>, i: u16)
    requires
        extends(q, p),
    ensures
        entry_at(p, i) is Ok ==> entry_at(q, i) == entry_at(p, i),
        utf8_at(p, i) is Ok ==> utf8_at(q, i) == utf8_at(p, i),
{
    if (i as int) < p.len() {
        assert(q.take(p.len() as int)[i as int] == q[i as int]);
    }
}

/// Lookups that succeed in a pool give the same result in every pool that extends it.
pub proof fn lemma_lookups_stable(p: Seq<Option<Cp>>, q: Seq<Option<Cp>>, i: u16)
    requires
        extends(q, p),
    ensures
        entry_at(p, i) is Ok ==> entry_at(q, i) == entry_at(p, i),
        utf8_at(p, i) is Ok ==> utf8_at(q, i) == utf8_at(p, i),
        class_name_at(p, i) is Ok ==> class_name_at(q, i) == class_name_at(p, i),
        name_and_type_at(p, i) is Ok ==> name_and_type_at(q, i) == name_and_type_at(p, i),
        forall|kind: CpTag| #[trigger] member_ref_at(p, i, kind) is Ok ==> member_ref_at(q, i, kind)
            == member_ref_at(p, i, kind),
{
    lemma_entry_stable(p, q, i);
    if let Ok(c) = entry_at(p, i) {
        match c {
            Cp::Class(n) => lemma_entry_stable(p, q, n),
            Cp::NameAndType(n, d) => {
                lemma_entry_stable(p, q, n);
                lemma_entry_stable(p, q, d);
            },
            Cp::Fieldref(a, b) | Cp::Methodref(a, b) | Cp::InterfaceMethodref(a, b) => {
                lemma_entry_stable(p, q, a);
                lemma_entry_stable(p, q, b);
                if let Ok(Cp::Class(n)) = entry_at(p, a) {
                    lemma_entry_stable(p, q, n);
                }
                if let Ok(Cp::NameAndType(n, d)) = entry_at(p, b) {
                    lemma_entry_stable(p, q, n);
                    lemma_entry_stable(p, q, d);
                }
            },
            _ => {},
        }
    }
}

/// `p` after `c` is appended, with the empty slot that follows a wide constant.
pub open spec fn pushed(p: Seq<Option<Cp>>, c: Cp) -> Seq<Option<Cp>> {
    if is_wide(c) {
        p.push(Some(c)).push(None)
    } else {
        p.push(Some(c))
    }
}

pub open spec fn opt_view(o: Option<CpInfo>) -> Option<Cp> {
    match o {
        Some(c) => Some(c@),
        None => None,
    }
}

impl CpInfo {
    /// The tag of this constant.
    pub fn tag(&self) -> (r: CpTag)
        ensures
            r == cp_tag(self@),
    {
        match self {
            CpInfo::Utf8 { .. } => CpTag::Utf8,
            CpInfo::Integer { .. } => CpTag::Integer,
            CpInfo::Float { .. } => CpTag::Float,
            CpInfo::Long { .. } => CpTag::Long,
            CpInfo::Double { .. } => CpTag::Double,
            CpInfo::Class { .. } => CpTag::Class,
            CpInfo::String { .. } => CpTag::String,
            CpInfo::Fieldref { .. } => CpTag::Fieldref,
            CpInfo::Methodref { .. } => CpTag::Methodref,
            CpInfo::InterfaceMethodref { .. } => CpTag::InterfaceMethodref,
            CpInfo::NameAndType { .. } => CpTag::NameAndType,
            CpInfo::MethodHandle { .. } => CpTag::MethodHandle,
            CpInfo::MethodType { .. } => CpTag::MethodType,
            CpInfo::Dynamic { .. } => CpTag::Dynamic,
            CpInfo::InvokeDynamic { .. } => CpTag::InvokeDynamic,
            CpInfo::Module { .. } => CpTag::Module,
            CpInfo::Package { .. } => CpTag::Package,
        }
    }

    /// Whether this constant takes two pool slots.
    pub fn is_wide(&self) -> (r: bool)
        ensures
            r == is_wide(self@),
    {
        match self {
            CpInfo::Long { .. } | CpInfo::Double { .. } => true,
            _ => false,
        }
    }

    /// Reads a constant's payload, given its tag.
    pub fn read_payload(tag: CpTag, reader: &mut ByteReader) -> (r: Result<CpInfo, Error>)
        ensures
            outcome(parse_payload(tag, old(reader)@), view_result(r), final(reader)@),
    {
        match tag {
            CpTag::Utf8 => {
                let n = reader.take_u16()?;
                let bytes = reader.take_bytes(n as usize)?;
                let string = decode_modified_utf8(bytes)?;
                Ok(CpInfo::Utf8 { string })
            },
            CpTag::Integer => Ok(CpInfo::Integer { value: reader.take_u32()? }),
            CpTag::Float => Ok(CpInfo::Float { bits: reader.take_u32()? }),
            CpTag::Long => {
                let high = reader.take_u32()?;
                let low = reader.take_u32()?;
                Ok(CpInfo::Long { value: long(high, low) })
            },
            CpTag::Double => {
                let high = reader.take_u32()?;
                let low = reader.take_u32()?;
                Ok(CpInfo::Double { bits: long(high, low) })
            },
            CpTag::Class => Ok(CpInfo::Class { name_index: reader.take_u16()? }),
            CpTag::String => Ok(CpInfo::String { string_index: reader.take_u16()? }),
            CpTag::Fieldref => {
                let class_index = reader.take_u16()?;
                let name_and_type_index = reader.take_u16()?;
                Ok(CpInfo::Fieldref { class_index, name_and_type_index })
            },
            CpTag::Methodref => {
                let class_index = reader.take_u16()?;
                let name_and_type_index = reader.take_u16()?;
                Ok(CpInfo::Methodref { class_index, name_and_type_index })
            },
            CpTag::InterfaceMethodref => {
                let class_index = reader.take_u16()?;
                let name_and_type_index = reader.take_u16()?;
                Ok(CpInfo::InterfaceMethodref { class_index, name_and_type_index })
            },
            CpTag::NameAndType => {
                let name_index = reader.take_u16()?;
                let descriptor_index = reader.take_u16()?;
                Ok(CpInfo::NameAndType { name_index, descriptor_index })
            },
            CpTag::MethodHandle => {
                let reference_kind = reader.take_u8()?;
                let reference_index = reader.take_u16()?;
                Ok(CpInfo::MethodHandle { reference_kind, reference_index })
            },
            CpTag::MethodType => Ok(CpInfo::MethodType { descriptor_index: reader.take_u16()? }),
            CpTag::Dynamic => {
                let bootstrap_method_attr_index = reader.take_u16()?;
                let name_and_type_index = reader.take_u16()?;
                Ok(CpInfo::Dynamic { bootstrap_method_attr_index, name_and_type_index })
            },
            CpTag::InvokeDynamic => {
                let bootstrap_method_attr_index = reader.take_u16()?;
                let name_and_type_index = reader.take_u16()?;
                Ok(CpInfo::InvokeDynamic { bootstrap_method_attr_index, name_and_type_index })
            },
            CpTag::Module => Ok(CpInfo::Module { name_index: reader.take_u16()? }),
            CpTag::Package => Ok(CpInfo::Package { name_index: reader.take_u16()? }),
        }
    }

    /// Reads one tagged constant.
    pub fn read(reader: &mut ByteReader) -> (r: Result<CpInfo, Error>)
        ensures
            outcome(parse_constant(old(reader)@), view_result(r), final(reader)@),
    {
        reveal(parse_constant);
        let b = reader.take_u8()?;
        let tag = CpTag::from_byte(b)?;
        CpInfo::read_payload(tag, reader)
    }

    /// Writes this constant with its tag; fails with `TooLarge` where a text's
    /// encoding does not fit the two-byte length field.
    pub fn write(&self, writer: &mut ByteWriter) -> (r: Result<(), Error>)
        ensures
            r is Ok <==> fits(self@),
            r is Ok ==> final(writer)@ == old(writer)@ + constant_bytes(self@),
            r is Err ==> r == Err::<(), Error>(Error::TooLarge),
    {
        reveal(constant_bytes);
        if let CpInfo::Utf8 { string } = self {
            let bytes = encode_modified_utf8(string.as_str());
            if bytes.len() > 0xFFFF {
                return Err(Error::TooLarge);
            }
            writer.write_byte(1);
            writer.write(bytes.len() as u16);
            writer.write_bytes(bytes.as_slice());
            assert(writer@ =~= old(writer)@ + constant_bytes(self@));
            return Ok(());
        }
        let tag = self.tag();
        writer.write_byte(tag.byte());
        match self {
            CpInfo::Utf8 { .. } => {},
            CpInfo::Integer { value } => writer.write(*value),
            CpInfo::Float { bits } => writer.write(*bits),
            CpInfo::Long { value } => {
                let (high, low) = long2bytes(*value);
                writer.write(high);
                writer.write(low);
            },
            CpInfo::Double { bits } => {
                let (high, low) = long2bytes(*bits);
                writer.write(high);
                writer.write(low);
            },
            CpInfo::Class { name_index } => writer.write(*name_index),
            CpInfo::String { string_index } => writer.write(*string_index),
            CpInfo::Fieldref { class_index, name_and_type_index } => {
                writer.write(*class_index);
                writer.write(*name_and_type_index);
            },
            CpInfo::Methodref { class_index, name_and_type_index } => {
                writer.write(*class_index);
                writer.write(*name_and_type_index);
            },
            CpInfo::InterfaceMethodref { class_index, name_and_type_index } => {
                writer.write(*class_index);
                writer.write(*name_and_type_index);
            },
            CpInfo::NameAndType { name_index, descriptor_index } => {
                writer.write(*name_index);
                writer.write(*descriptor_index);
            },
            CpInfo::MethodHandle { reference_kind, reference_index } => {
                writer.write(*reference_kind);
                writer.write(*reference_index);
            },
            CpInfo::MethodType { descriptor_index } => writer.write(*descriptor_index),
            CpInfo::Dynamic { bootstrap_method_attr_index, name_and_type_index } => {
                writer.write(*bootstrap_method_attr_index);
                writer.write(*name_and_type_index);
            },
            CpInfo::InvokeDynamic { bootstrap_method_attr_index, name_and_type_index } => {
                writer.write(*bootstrap_method_attr_index);
                writer.write(*name_and_type_index);
            },
            CpInfo::Module { name_index } => writer.write(*name_index),
            CpInfo::Package { name_index } => writer.write(*name_index),
        }
        assert(writer@ =~= old(writer)@ + constant_bytes(self@));
        Ok(())
    }
}


proof fn lemma_slots_bytes_push(q: Seq<Option<Cp>>, x: Option<Cp>)
    ensures
        slots_bytes(q.push(x)) == slots_bytes(q) + slot_bytes(x),
    decreases q.len(),
{
    if q.len() == 0 {
        assert(q.push(x).drop_first() =~= Seq::<Option<Cp>>::empty());
        assert(slots_bytes(q.push(x)) =~= slot_bytes(x) + slots_bytes(Seq::<Option<Cp>>::empty()));
    } else {
        lemma_slots_bytes_push(q.drop_first(), x);
        assert(q.push(x).drop_first() =~= q.drop_first().push(x));
        assert(slots_bytes(q.push(x)) =~= slot_bytes(q[0]) + slots_bytes(q.drop_first().push(x)));
    }
}

proof fn lemma_pushed_wf(p: Seq<Option<Cp>>, c: Cp)
    requires
        pool_wf(p),
        p.len() + slots(c) <= 0xFFFF,
    ensures
        pool_wf(pushed(p, c)),
{
    let q = pushed(p, c);
    let a = p.drop_first();
    let b = q.drop_first();
    if a.len() > 0 {
        assert(!wide_at(a, a.len() - 1));
    }
    assert forall|i: int| 0 <= i < b.len() implies (#[trigger] b[i] is None <==> (i >= 1 && wide_at(
        b,
        i - 1,
    ))) by {
        if i < a.len() {
            assert(b[i] == a[i]);
            if i >= 1 {
                assert(wide_at(b, i - 1) == wide_at(a, i - 1));
            }
        } else if i == a.len() {
            if i >= 1 {
                assert(wide_at(b, i - 1) == wide_at(a, i - 1));
            }
        } else {
            assert(wide_at(b, i - 1));
        }
    }
    assert forall|i: int| 0 <= i < b.len() && #[trigger] wide_at(b, i) implies i + 1 < b.len() by {
        if i < a.len() {
            assert(wide_at(b, i) == wide_at(a, i));
        }
    }
}

/// The constant pool: slot 0 is an empty sentinel, and each `Long` or
/// `Double` is followed by an empty slot. Its view is the sequence of slots.
#[derive(Debug)]
pub struct ConstantPool {
    pool: Vec<Option<CpInfo>>,
}

impl View for ConstantPool {
    type V = Seq<Option<Cp>>;

    closed spec fn view(&self) -> Seq<Option<Cp>> {
        self.pool@.map_values(|o: Option<CpInfo>| opt_view(o))
    }
}

impl ConstantPool {
    /// Every pool is well formed.
    #[verifier::type_invariant]
    pub open spec fn inv(&self) -> bool {
        pool_wf(self@)
    }

    /// A pool that holds only the sentinel.
    pub fn new() -> (r: ConstantPool)
        ensures
            r@ == seq![None::<Cp>],
            texts_fit(r@),
            linked(r@),
    {
        let r = ConstantPool { pool: vec![None] };
        assert(r@ =~= seq![None::<Cp>]);
        r
    }

    /// The number of slots, sentinel and empty slots included: the count
    /// written on the wire.
    pub fn len(&self) -> (r: u16)
        ensures
            r as int == self@.len(),
    {
        proof {
            use_type_invariant(self);
        }
        self.pool.len() as u16
    }

    /// Appends a constant and returns its index; a wide constant also takes
    /// the empty slot after it. Fails with `TooLarge` when the pool would
    /// outgrow its two-byte count.
    pub fn push(&mut self, constant: CpInfo) -> (r: Result<u16, Error>)
        ensures
            r is Ok <==> old(self)@.len() + slots(constant@) <= 0xFFFF,
            match r {
                Ok(i) => i as int == old(self)@.len() && final(self)@ == pushed(old(self)@, constant@)
                    && texts_fit(final(self)@) == (texts_fit(old(self)@) && fits(constant@))
                    && (linked(old(self)@) && refs_ok(old(self)@, constant@) ==> linked(final(self)@)),
                Err(e) => e == Error::TooLarge && final(self)@ == old(self)@,
            },
    {
        proof {
            lemma_texts_pushed(old(self)@, constant@);
            if linked(old(self)@) && refs_ok(old(self)@, constant@) {
                lemma_linked_pushed(old(self)@, constant@);
            }
            use_type_invariant(&*self);
        }
        let wide = constant.is_wide();
        let needed: usize = if wide { 2 } else { 1 };
        if self.pool.len() + needed > 0xFFFF {
            return Err(Error::TooLarge);
        }
        let index = self.pool.len() as u16;
        proof {
            lemma_pushed_wf(self@, constant@);
        }
        let ghost c = constant@;
        let mut taken = ConstantPool::new();
        core::mem::swap(self, &mut taken);
        let mut slots = taken.pool;
        slots.push(Some(constant));
        if wide {
            slots.push(None);
        }
        assert(slots@.map_values(|o: Option<CpInfo>| opt_view(o)) =~= pushed(old(self)@, c));
        let grown = ConstantPool { pool: slots };
        *self = grown;
        Ok(index)
    }

    /// The constant at slot `index`.
    pub fn entry(&self, index: u16) -> (r: Result<&CpInfo, Error>)
        ensures
            match entry_at(self@, index) {
                Ok(c) => r matches Ok(x) && x@ == c,
                Err(e) => r == Err::<&CpInfo, Error>(e),
            },
    {
        if (index as usize) < self.pool.len() {
            match &self.pool[index as usize] {
                Some(c) => Ok(c),
                None => Err(Error::InvalidIndex { index }),
            }
        } else {
            Err(Error::InvalidIndex { index })
        }
    }

    /// The text of the `Utf8` constant at `index`.
    pub fn get_utf8(&self, index: u16) -> (r: Result<String, Error>)
        ensures
            view_result(r) == utf8_at(self@, index),
    {
        match self.entry(index)? {
            CpInfo::Utf8 { string } => Ok(string.clone()),
            other => Err(Error::WrongTag { index, expected: 1, found: other.tag().byte() }),
        }
    }

    /// The name of the class that the `Class` constant at `index` names.
    pub fn get_class_name(&self, index: u16) -> (r: Result<String, Error>)
        ensures
            view_result(r) == class_name_at(self@, index),
    {
        match self.entry(index)? {
            CpInfo::Class { name_index } => self.get_utf8(*name_index),
            other => Err(Error::WrongTag { index, expected: 7, found: other.tag().byte() }),
        }
    }

    /// The name and descriptor that the `NameAndType` constant at `index` names.
    pub fn get_name_and_type(&self, index: u16) -> (r: Result<(String, String), Error>)
        ensures
            match name_and_type_at(self@, index) {
                Ok((n, d)) => r matches Ok((a, b)) && a@ == n && b@ == d,
                Err(e) => r == Err::<(String, String), Error>(e),
            },
    {
        match self.entry(index)? {
            CpInfo::NameAndType { name_index, descriptor_index } => {
                let name = self.get_utf8(*name_index)?;
                let descriptor = self.get_utf8(*descriptor_index)?;
                Ok((name, descriptor))
            },
            other => Err(Error::WrongTag { index, expected: 12, found: other.tag().byte() }),
        }
    }

    /// Class name, member name and descriptor of the `Fieldref`, `Methodref`
    /// or `InterfaceMethodref` (as `kind` says) at `index`.
    pub fn get_member_ref(&self, index: u16, kind: CpTag) -> (r: Result<(String, String, String), Error>)
        ensures
            match member_ref_at(self@, index, kind) {
                Ok((c, n, d)) => r matches Ok((x, y, z)) && x@ == c && y@ == n && z@ == d,
                Err(e) => r == Err::<(String, String, String), Error>(e),
            },
    {
        let entry = self.entry(index)?;
        let (class_index, name_and_type_index) = match (entry, kind) {
            (CpInfo::Fieldref { class_index, name_and_type_index }, CpTag::Fieldref) => (
                *class_index,
                *name_and_type_index,
            ),
            (CpInfo::Methodref { class_index, name_and_type_index }, CpTag::Methodref) => (
                *class_index,
                *name_and_type_index,
            ),
            (
                CpInfo::InterfaceMethodref { class_index, name_and_type_index },
                CpTag::InterfaceMethodref,
            ) => (*class_index, *name_and_type_index),
            _ => {
                return Err(Error::WrongTag { index, expected: kind.byte(), found: entry.tag().byte() });
            },
        };
        let class = self.get_class_name(class_index)?;
        let (name, descriptor) = self.get_name_and_type(name_and_type_index)?;
        Ok((class, name, descriptor))
    }

    /// Reads a constant pool: its count, then the constants of slots `1..count`.
    pub fn read(reader: &mut ByteReader) -> (r: Result<ConstantPool, Error>)
        ensures
            outcome(parse_pool(old(reader)@), view_result(r), final(reader)@),
    {
        let count = reader.take_u16()?;
        let n: usize = if count == 0 { 0 } else { (count - 1) as usize };
        let ghost s1 = reader@;
        let mut pool = ConstantPool::new();
        proof {
            assert(pool@.drop_first() =~= Seq::<Option<Cp>>::empty());
            match parse_slots(s1, n as nat) {
                Ok((sl, s2)) => assert(Seq::<Option<Cp>>::empty() + sl =~= sl),
                Err(e) => {},
            }
        }
        while pool.len() as usize - 1 < n
            invariant
                1 <= pool@.len() <= n + 1,
                n < 0xFFFF,
                parse_pool(old(reader)@) == match parse_slots(s1, n as nat) {
                    Ok((sl, s2)) => Ok((seq![None::<Cp>] + sl, s2)),
                    Err(e) => Err::<(Seq<Option<Cp>>, Seq<u8>), Error>(e),
                },
                parse_slots(s1, n as nat) == match parse_slots(reader@, (n + 1 - pool@.len()) as nat) {
                    Ok((rest, s2)) => Ok((pool@.drop_first() + rest, s2)),
                    Err(e) => Err::<(Seq<Option<Cp>>, Seq<u8>), Error>(e),
                },
            decreases n + 1 - pool@.len(),
        {
            let ghost before = reader@;
            let ghost k = pool@;
            let ghost m = (n + 1 - pool@.len()) as nat;
            assert(m > 0);
            let c = match CpInfo::read(reader) {
                Ok(c) => c,
                Err(e) => {
                    assert(parse_slots(before, m) == Err::<(Seq<Option<Cp>>, Seq<u8>), Error>(e));
                    return Err(e);
                },
            };
            let needed: usize = if c.is_wide() { 2 } else { 1 };
            if n + 1 - (pool.len() as usize) < needed {
                assert(parse_slots(before, m) == Err::<(Seq<Option<Cp>>, Seq<u8>), Error>(Error::Malformed));
                return Err(Error::Malformed);
            }
            let ghost cv = c@;
            let pushed_index = pool.push(c);
            proof {
                assert(pool@.drop_first() =~= if is_wide(cv) {
                    k.drop_first() + seq![Some(cv), None]
                } else {
                    k.drop_first() + seq![Some(cv)]
                });
                match parse_slots(reader@, (n + 1 - pool@.len()) as nat) {
                    Ok((rest, s2)) => {
                        if is_wide(cv) {
                            assert(k.drop_first() + (seq![Some(cv), None] + rest) =~= pool@.drop_first() + rest);
                        } else {
                            assert(k.drop_first() + (seq![Some(cv)] + rest) =~= pool@.drop_first() + rest);
                        }
                    },
                    Err(e) => {},
                }
            }
        }
        proof {
            use_type_invariant(&pool);
            assert(pool@.drop_first() + Seq::<Option<Cp>>::empty() =~= pool@.drop_first());
            assert(seq![None::<Cp>] + pool@.drop_first() =~= pool@);
        }
        Ok(pool)
    }

    /// Writes the pool: its count, then each constant with its tag. Fails
    /// with `TooLarge` where a text's encoding does not fit its length field.
    pub fn write(&self, writer: &mut ByteWriter) -> (r: Result<(), Error>)
        ensures
            r is Ok <==> texts_fit(self@),
            r is Ok ==> final(writer)@ == old(writer)@ + pool_bytes(self@),
            r is Err ==> r == Err::<(), Error>(Error::TooLarge),
    {
        proof {
            use_type_invariant(self);
        }
        let len = self.pool.len();
        writer.write(len as u16);
        let mut i: usize = 1;
        proof {
            assert(self@.subrange(1, 1) =~= Seq::<Option<Cp>>::empty());
        }
        while i < len
            invariant
                1 <= i <= len,
                len == self@.len(),
                len <= 0xFFFF,
                self@[0] is None,
                writer@ == old(writer)@ + bytes16(len as u16) + slots_bytes(self@.subrange(1, i as int)),
                forall|j: int| 0 <= j < i ==> (#[trigger] self@[j] matches Some(Cp::Utf8(t)) ==> encode(t).len() <= 0xFFFF),
            decreases len - i,
        {
            proof {
                lemma_slots_bytes_push(self@.subrange(1, i as int), self@[i as int]);
                assert(self@.subrange(1, i as int).push(self@[i as int]) =~= self@.subrange(1, i + 1));
            }
            match &self.pool[i] {
                None => {},
                Some(c) => {
                    match c.write(writer) {
                        Ok(()) => {},
                        Err(e) => {
                            assert(self@[i as int] == Some(c@));
                            return Err(e);
                        },
                    }
                },
            }
            assert(writer@ =~= old(writer)@ + bytes16(len as u16) + slots_bytes(self@.subrange(1, i + 1)));
            i = i + 1;
        }
        assert(self@.subrange(1, len as int) =~= self@.drop_first());
        assert(writer@ =~= old(writer)@ + pool_bytes(self@));
        Ok(())
    }
}

} // verus!
