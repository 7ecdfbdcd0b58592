use vstd::prelude::*;
use crate::access::{ClassAccessModifier, decode_flags, encode_flags, flags_of, lemma_flags_round_trip, mask_of};
use crate::attributes::{
    Attribute, opt_text, attrs_each_fit, attrs_need, attrs_texts, lemma_attrs_view_len, AttributeV, attrs_canonical, attrs_view, decode_counted_attributes, encode_error_kind,
    lemma_decoded_attributes_canonical, parse_counted, read_attributes, write_attributes,
    write_table,
};
use crate::code::ClassRef;
use crate::constant_pool::{
    Cp, text_fits, texts_fit, ConstantPool, class_name_at, extends, lemma_extends_refl, lemma_extends_trans, lemma_lookups_stable,
    lemma_parse_u16, lemma_parse_u32, lemma_pool_round_trip, parse_pool, pool_bytes,
};
use crate::error::{Error, view_result};
use crate::list::{Element, Pool, all_canonical, all_texts, decode_list, seq_need, seq_view};
use crate::members::{
    Field, MemberV, Method, decode_counted_members, decode_members, encode_members,
    lemma_decoded_members_canonical, members_canonical, members_fit, members_need, members_texts,
    members_view,
};
use crate::reader::{ByteReader, outcome, parse_u16, parse_u32};
use crate::writer::{ByteWriter, bytes16, bytes32};

verus! {

/// The class file header: magic number and version.
#[derive(Debug, Clone, Copy, PartialEq, Eq, Structural)]
pub struct Version {
    pub magic: u32,
    pub major: u16,
    pub minor: u16,
}

impl Version {
    /// A header with the given parts.
    pub fn new(magic: u32, major: u16, minor: u16) -> (r: Version)
        ensures
            r == (Version { magic, major, minor }),
    {
        Version { magic, major, minor }
    }
}

/// The magic number that every class file starts with.
pub const MAGIC: u32 = 0xCAFEBABE;

/// Reads the header: magic, minor, major; a magic other than `0xCAFEBABE`
/// fails with `BadMagic` once all three are read.
pub open spec fn parse_version(s: Seq<u8>) -> Result<(Version, Seq<u8>), Error> {
    match parse_u32(s) {
        Err(e) => Err(e),
        Ok((magic, s1)) => match parse_u16(s1) {
            Err(e) => Err(e),
            Ok((minor, s2)) => match parse_u16(s2) {
                Err(e) => Err(e),
                Ok((major, s3)) => if magic != MAGIC {
                    Err(Error::BadMagic { magic })
                } else {
                    Ok((Version { magic, major, minor }, s3))
                },
            },
        },
    }
}

impl Version {
    /// Reads the header.
    pub fn read(reader: &mut ByteReader) -> (r: Result<Version, Error>)
        ensures
            outcome(parse_version(old(reader)@), r, final(reader)@),
    {
        let magic = reader.take_u32()?;
        let minor = reader.take_u16()?;
        let major = reader.take_u16()?;
        if magic != MAGIC {
            return Err(Error::BadMagic { magic });
        }
        Ok(Version::new(magic, major, minor))
    }

    /// Writes the header: magic, minor, major.
    pub fn write(&self, writer: &mut ByteWriter)
        ensures
            final(writer)@ == old(writer)@ + bytes32(self.magic) + bytes16(self.minor) + bytes16(self.major),
    {
        writer.write(self.magic);
        writer.write(self.minor);
        writer.write(self.major);
    }
}

/// An interface that a class implements, by name.
#[derive(Debug, Clone, PartialEq, Eq)]
pub struct Interface(pub String);

impl Interface {
    /// The interface named `str`.
    pub fn new(str: String) -> (r: Interface)
        ensures
            r.0 == str,
    {
        Interface(str)
    }
}

impl View for Interface {
    type V = Seq<char>;

    open spec fn view(&self) -> Seq<char> {
        self.0@
    }
}

/// One interface entry: a pool index of a `Class` constant.
pub open spec fn interface_elem(s: Seq<u8>, p: Pool) -> Result<(Seq<char>, Seq<u8>), Error> {
    match parse_u16(s) {
        Err(e) => Err(e),
        Ok((i, s1)) => match class_name_at(p, i) {
            Err(e) => Err(e),
            Ok(n) => Ok((n, s1)),
        },
    }
}

impl Element for Interface {
    open spec fn parser() -> spec_fn(Seq<u8>, Pool) -> Result<(Seq<char>, Seq<u8>), Error> {
        |s: Seq<u8>, q: Pool| interface_elem(s, q)
    }

    open spec fn need(v: Seq<char>) -> nat {
        2
    }

    open spec fn size(v: Seq<char>) -> nat {
        2
    }

    open spec fn texts(v: Seq<char>) -> bool {
        crate::constant_pool::text_fits(v)
    }

    /// An interface is interned as its `Utf8`, then the `Class` naming it.
    open spec fn pushes(p: Pool, v: Seq<char>) -> Pool {
        crate::attributes::class_pushed(p, v)
    }

    open spec fn canonical(v: Seq<char>) -> bool {
        true
    }

    fn decode(reader: &mut ByteReader, pool: &ConstantPool) -> (r: Result<Self, Error>) {
        let index = reader.take_u16()?;
        Ok(Interface(pool.get_class_name(index)?))
    }

    fn encode(&self, pool: &mut ConstantPool, writer: &mut ByteWriter) -> (r: Result<(), Error>) {
        let index = ClassRef(self.0.clone()).encode(pool)?;
        let ghost w0 = writer@;
        writer.write(index);
        proof {
            let b = writer@.skip(w0.len() as int);
            assert(b =~= bytes16(index));
            assert(writer@.take(w0.len() as int) =~= w0);
            assert forall|q: Pool, rest: Seq<u8>| extends(q, pool@) implies #[trigger] (Self::parser())(b + rest, q)
                == Ok::<(Seq<char>, Seq<u8>), Error>((self@, rest)) by {
                lemma_parse_u16(index, rest);
                lemma_lookups_stable(pool@, q, index);
            }
        }
        Ok(())
    }
}

/// The value of a class.
pub struct ClassV {
    pub version: Version,
    pub access_flags: Seq<ClassAccessModifier>,
    pub this_class: Seq<char>,
    pub super_class: Option<Seq<char>>,
    pub interfaces: Seq<Seq<char>>,
    pub fields: Seq<MemberV<crate::access::FieldAccessModifier>>,
    pub methods: Seq<MemberV<crate::access::MethodAccessModifier>>,
    pub attributes: Seq<AttributeV>,
}

/// The super class: none for index 0, else the class the index names.
pub open spec fn super_at(p: Pool, i: u16) -> Result<Option<Seq<char>>, Error> {
    if i == 0 {
        Ok(None)
    } else {
        match class_name_at(p, i) {
            Err(e) => Err(e),
            Ok(n) => Ok(Some(n)),
        }
    }
}

/// Interfaces, fields, methods and attributes, in that order.
pub type PartsV = (
    Seq<Seq<char>>,
    Seq<MemberV<crate::access::FieldAccessModifier>>,
    Seq<MemberV<crate::access::MethodAccessModifier>>,
    Seq<AttributeV>,
);

/// Reads the interfaces, fields, methods and attributes of a class.
pub open spec fn decode_parts(s: Seq<u8>, p: Pool) -> Result<PartsV, Error> {
    match parse_counted(s, p, Interface::parser()) {
        Err(e) => Err(e),
        Ok((interfaces, s4)) => match decode_counted_members::<crate::access::FieldAccessModifier>(s4, p) {
            Err(e) => Err(e),
            Ok((fields, s5)) => match decode_counted_members::<crate::access::MethodAccessModifier>(s5, p) {
                Err(e) => Err(e),
                Ok((methods, s6)) => match decode_counted_attributes(s6, p) {
                    Err(e) => Err(e),
                    Ok((attributes, s7)) => Ok((interfaces, fields, methods, attributes)),
                },
            },
        },
    }
}

/// Everything after the constant pool, resolved against it.
pub open spec fn decode_body(v: Version, p: Pool, s: Seq<u8>) -> Result<ClassV, Error> {
    match parse_u16(s) {
        Err(e) => Err(e),
        Ok((bits, s1)) => match parse_u16(s1) {
            Err(e) => Err(e),
            Ok((ti, s2)) => match class_name_at(p, ti) {
                Err(e) => Err(e),
                Ok(this_class) => match parse_u16(s2) {
                    Err(e) => Err(e),
                    Ok((si, s3)) => match super_at(p, si) {
                        Err(e) => Err(e),
                        Ok(super_class) => match decode_parts(s3, p) {
                            Err(e) => Err(e),
                            Ok((interfaces, fields, methods, attributes)) => Ok(
                                ClassV {
                                    version: v,
                                    access_flags: flags_of(bits),
                                    this_class,
                                    super_class,
                                    interfaces,
                                    fields,
                                    methods,
                                    attributes,
                                },
                            ),
                        },
                    },
                },
            },
        },
    }
}

/// Decodes a class file: header, constant pool, then the body resolved
/// against the pool. Bytes after the class attributes are ignored.
pub open spec fn decode_class(b: Seq<u8>) -> Result<ClassV, Error> {
    match parse_version(b) {
        Err(e) => Err(e),
        Ok((v, s1)) => match parse_pool(s1) {
            Err(e) => Err(e),
            Ok((p, s2)) => decode_body(v, p, s2),
        },
    }
}

/// A class file in its resolved form; the constant pool is rebuilt on
/// every write.
#[derive(Debug, PartialEq, Eq)]
pub struct Class {
    pub version: Version,
    pub access_flags: Vec<ClassAccessModifier>,
    pub this_class: String,
    pub super_class: Option<String>,
    pub interfaces: Vec<Interface>,
    pub fields: Vec<Field>,
    pub methods: Vec<Method>,
    pub attributes: Vec<Attribute>,
}

impl View for Class {
    type V = ClassV;

    open spec fn view(&self) -> ClassV {
        ClassV {
            version: self.version,
            access_flags: self.access_flags@,
            this_class: self.this_class@,
            super_class: opt_text(self.super_class),
            interfaces: seq_view(self.interfaces@),
            fields: members_view(self.fields@),
            methods: members_view(self.methods@),
            attributes: attrs_view(self.attributes@),
        }
    }
}

/// The class reads back as it is written: flag sets in decoded form, and no
/// `Unknown` attribute with a supported name.
pub open spec fn class_canonical(c: ClassV) -> bool {
    &&& c.version.magic == MAGIC
    &&& flags_of::<ClassAccessModifier>(mask_of(c.access_flags)) == c.access_flags
    &&& members_canonical(c.fields)
    &&& members_canonical(c.methods)
    &&& attrs_canonical(c.attributes)
}


proof fn lemma_body(c: ClassV, p: Pool, s: Seq<u8>, bits: u16, ti: u16, si: u16, parts: Seq<u8>)
    requires
        s == bytes16(bits) + (bytes16(ti) + (bytes16(si) + parts)),
        flags_of::<ClassAccessModifier>(bits) == c.access_flags,
        class_name_at(p, ti) == Ok::<Seq<char>, Error>(c.this_class),
        super_at(p, si) == Ok::<Option<Seq<char>>, Error>(c.super_class),
        decode_parts(parts, p) == Ok::<PartsV, Error>((c.interfaces, c.fields, c.methods, c.attributes)),
    ensures
        decode_body(c.version, p, s) == Ok::<ClassV, Error>(c),
{
    let r2 = bytes16(si) + parts;
    let r1 = bytes16(ti) + r2;
    lemma_parse_u16(bits, r1);
    lemma_parse_u16(ti, r2);
    lemma_parse_u16(si, parts);
}

#[verifier::rlimit(40)]
proof fn lemma_parts(c: ClassV, p: Pool, seg1: Seq<u8>, seg2: Seq<u8>, seg3: Seq<u8>, seg4: Seq<u8>)
    requires
        parse_counted(seg1 + (seg2 + (seg3 + seg4)), p, Interface::parser()) == Ok::<(Seq<Seq<char>>, Seq<u8>), Error>(
            (c.interfaces, seg2 + (seg3 + seg4)),
        ),
        decode_counted_members::<crate::access::FieldAccessModifier>(seg2 + (seg3 + seg4), p) == Ok::<(Seq<MemberV<crate::access::FieldAccessModifier>>, Seq<u8>), Error>(
            (c.fields, seg3 + seg4),
        ),
        decode_counted_members::<crate::access::MethodAccessModifier>(seg3 + seg4, p) == Ok::<(Seq<MemberV<crate::access::MethodAccessModifier>>, Seq<u8>), Error>(
            (c.methods, seg4),
        ),
        decode_counted_attributes(seg4, p) == Ok::<(Seq<AttributeV>, Seq<u8>), Error>((c.attributes, Seq::<u8>::empty())),
    ensures
        decode_parts(seg1 + (seg2 + (seg3 + seg4)), p) == Ok::<PartsV, Error>((c.interfaces, c.fields, c.methods, c.attributes)),
{
}

proof fn lemma_class_bytes(c: ClassV, pp: Pool, result: Seq<u8>, tail: Seq<u8>, bits: u16, ti: u16, si: u16, body: Seq<u8>)
    requires
        result == bytes32(c.version.magic) + (bytes16(c.version.minor) + (bytes16(c.version.major) + (pool_bytes(pp) + tail))),
        tail == bytes16(bits) + (bytes16(ti) + (bytes16(si) + body)),
        crate::constant_pool::pool_wf(pp),
        crate::constant_pool::texts_fit(pp),
        c.version.magic == MAGIC,
        flags_of::<ClassAccessModifier>(bits) == c.access_flags,
        class_name_at(pp, ti) == Ok::<Seq<char>, Error>(c.this_class),
        super_at(pp, si) == Ok::<Option<Seq<char>>, Error>(c.super_class),
        decode_parts(body, pp) == Ok::<PartsV, Error>((c.interfaces, c.fields, c.methods, c.attributes)),
    ensures
        decode_class(result) == Ok::<ClassV, Error>(c),
{
    let s3 = pool_bytes(pp) + tail;
    let s2 = bytes16(c.version.major) + s3;
    let s1 = bytes16(c.version.minor) + s2;
    lemma_parse_u32(c.version.magic, s1);
    lemma_parse_u16(c.version.minor, s2);
    lemma_parse_u16(c.version.major, s3);
    assert(parse_version(result) == Ok::<(Version, Seq<u8>), Error>((c.version, s3)));
    lemma_pool_round_trip(pp, tail);
    lemma_body(c, pp, tail, bits, ti, si, body);
}

/// The pool slots that encoding the interfaces, fields, methods and
/// attributes interns.
pub open spec fn parts_need(c: ClassV) -> nat {
    seq_need::<Interface>(c.interfaces) + members_need(c.fields) + members_need(c.methods) + attrs_need(
        c.attributes,
    )
}

/// The interfaces, fields, methods and attributes fit their count fields,
/// and each member and attribute can be encoded.
pub open spec fn parts_fit(c: ClassV) -> bool {
    &&& c.interfaces.len() <= 0xFFFF
    &&& c.fields.len() <= 0xFFFF && members_fit(c.fields)
    &&& c.methods.len() <= 0xFFFF && members_fit(c.methods)
    &&& c.attributes.len() <= 0xFFFF && attrs_each_fit(c.attributes)
}

/// Every text that encoding the parts interns fits a `Utf8` constant.
pub open spec fn parts_texts(c: ClassV) -> bool {
    all_texts::<Interface>(c.interfaces) && members_texts(c.fields) && members_texts(c.methods)
        && attrs_texts(c.attributes)
}

/// The pool slots that encoding the class interns, after the sentinel.
pub open spec fn class_need(c: ClassV) -> nat {
    2 + (if c.super_class is Some { 2nat } else { 0nat }) + parts_need(c)
}

/// The class can be encoded: every table fits its count, every member and
/// attribute can be encoded (instructions well formed, bodies within four-byte
/// lengths), every text fits a `Utf8` constant, and the pool needs at most
/// 0xFFFF slots.
pub open spec fn class_fits(c: ClassV) -> bool {
    &&& parts_fit(c)
    &&& text_fits(c.this_class)
    &&& (c.super_class matches Some(s) ==> text_fits(s))
    &&& parts_texts(c)
    &&& 1 + class_need(c) <= 0xFFFF
}

/// How a class stands on the wire with the pool `p` and the parts `body`:
/// header, pool, flags, this and super indices, then the parts. The pool
/// holds `this_class` as `Utf8` and `Class` in slots 1 and 2, the super
/// class in slots 3 and 4, and everything else after them.
pub open spec fn written_class(c: ClassV, p: Pool, body: Seq<u8>, b: Seq<u8>) -> bool {
    let super_index: u16 = if c.super_class is Some { 4 } else { 0 };
    &&& crate::constant_pool::pool_wf(p)
    &&& crate::constant_pool::linked(p)
    &&& b == bytes32(c.version.magic) + bytes16(c.version.minor) + bytes16(c.version.major) + pool_bytes(p)
        + bytes16(mask_of(c.access_flags)) + bytes16(2) + bytes16(super_index) + body
    &&& p.len() >= 3
    &&& p[1] == Some(Cp::Utf8(c.this_class))
    &&& p[2] == Some(Cp::Class(1))
    &&& (c.super_class matches Some(s) ==> p.len() >= 5 && p[3] == Some(Cp::Utf8(s)) && p[4] == Some(Cp::Class(3)))
}

/// The pool right after `this_class` and the super class are interned.
pub open spec fn header_pool(c: ClassV, p: Pool) -> bool {
    &&& p.len() == 1 + (if c.super_class is Some { 4nat } else { 2nat })
    &&& p[0] is None
    &&& p[1] == Some(Cp::Utf8(c.this_class))
    &&& p[2] == Some(Cp::Class(1))
    &&& (c.super_class matches Some(s) ==> p[3] == Some(Cp::Utf8(s)) && p[4] == Some(Cp::Class(3)))
}

proof fn lemma_written_class(c: ClassV, h: Pool, p: Pool, body: Seq<u8>, b: Seq<u8>)
    requires
        header_pool(c, h),
        extends(p, h),
        crate::constant_pool::pool_wf(p),
        crate::constant_pool::linked(p),
        b == bytes32(c.version.magic) + (bytes16(c.version.minor) + (bytes16(c.version.major) + (pool_bytes(p)
            + (bytes16(mask_of(c.access_flags)) + (bytes16(2) + (bytes16(if c.super_class is Some { 4u16 } else { 0u16 }) + body)))))),
    ensures
        exists|q: Pool, r: Seq<u8>| #[trigger] written_class(c, q, r, b),
{
    assert(p.take(h.len() as int)[1] == h[1]);
    assert(p.take(h.len() as int)[2] == h[2]);
    if c.super_class is Some {
        assert(p.take(h.len() as int)[3] == h[3]);
        assert(p.take(h.len() as int)[4] == h[4]);
    }
    let super_index: u16 = if c.super_class is Some { 4 } else { 0 };
    assert(b =~= bytes32(c.version.magic) + bytes16(c.version.minor) + bytes16(c.version.major) + pool_bytes(p)
        + bytes16(mask_of(c.access_flags)) + bytes16(2) + bytes16(super_index) + body);
    assert(written_class(c, p, body, b));
}

/// The parts of a class as they stand after the pool and the indices.
pub open spec fn encodes_parts(b: Seq<u8>, c: ClassV, p: Pool) -> bool {
    forall|q: Pool| extends(q, p) ==> #[trigger] decode_parts(b, q) == Ok::<PartsV, Error>(
        (c.interfaces, c.fields, c.methods, c.attributes),
    )
}

impl Class {
    /// Reads a class file: header, constant pool, then the body resolved
    /// against the pool.
    pub fn read(reader: &mut ByteReader) -> (r: Result<Class, Error>)
        ensures
            view_result(r) == decode_class(old(reader)@),
    {
        let version = Version::read(reader)?;
        let pool = ConstantPool::read(reader)?;
        let bits = reader.take_u16()?;
        let this_index = reader.take_u16()?;
        let this_class = pool.get_class_name(this_index)?;
        let super_index = reader.take_u16()?;
        let super_class = if super_index == 0 {
            None
        } else {
            Some(pool.get_class_name(super_index)?)
        };
        let n = reader.take_u16()?;
        let interfaces = decode_list(reader, &pool, n as usize)?;
        let n = reader.take_u16()?;
        let fields = decode_members(reader, &pool, n as usize)?;
        let n = reader.take_u16()?;
        let methods = decode_members(reader, &pool, n as usize)?;
        let n = reader.take_u16()?;
        let attributes = read_attributes(reader, &pool, n as usize)?;
        Ok(Class {
            version,
            access_flags: decode_flags(bits),
            this_class,
            super_class,
            interfaces,
            fields,
            methods,
            attributes,
        })
    }

    /// Decodes the class file `bytes`.
    pub fn decode(bytes: Vec<u8>) -> (r: Result<Class, Error>)
        ensures
            view_result(r) == decode_class(bytes@),
    {
        let mut reader = ByteReader::from(bytes);
        Class::read(&mut reader)
    }

    /// Writes interfaces, fields, methods and attributes, interning into `pool`.
    fn write_parts(&self, pool: &mut ConstantPool, body: &mut ByteWriter) -> (r: Result<(), Error>)
        requires
            old(body)@.len() == 0,
        ensures
            r is Ok ==> (crate::constant_pool::linked(old(pool)@) ==> crate::constant_pool::linked(final(pool)@)),
            r is Ok <==> parts_fit(self@) && old(pool)@.len() + parts_need(self@) <= 0xFFFF,
            match r {
                Ok(()) => extends(final(pool)@, old(pool)@)
                    && final(pool)@.len() == old(pool)@.len() + parts_need(self@)
                    && texts_fit(final(pool)@) == (texts_fit(old(pool)@) && parts_texts(self@))
                    && (class_canonical(self@) ==> encodes_parts(final(body)@, self@, final(pool)@)),
                Err(e) => encode_error_kind(e),
            },
    {
        proof {
            use_type_invariant(&*pool);
            lemma_attrs_view_len(self.attributes@);
        }
        let ghost at0 = pool@;
        write_table(&self.interfaces, pool, body)?;
        let ghost at3 = pool@;
        let ghost b1 = body@;
        encode_members(&self.fields, pool, body)?;
        let ghost at4 = pool@;
        let ghost b2 = body@;
        encode_members(&self.methods, pool, body)?;
        let ghost at5 = pool@;
        let ghost b3 = body@;
        write_attributes(&self.attributes, pool, body)?;
        proof {
            let pp = pool@;
            let b4 = body@;
            let c = self@;
            lemma_extends_trans(at0, at3, at4);
            lemma_extends_trans(at0, at4, at5);
            lemma_extends_trans(at0, at5, pp);
            lemma_extends_trans(at3, at4, at5);
            lemma_extends_trans(at3, at5, pp);
            lemma_extends_trans(at4, at5, pp);
            let seg1 = b1;
            let seg2 = b2.skip(b1.len() as int);
            let seg3 = b3.skip(b2.len() as int);
            let seg4 = b4.skip(b3.len() as int);
            assert forall|i: int| 0 <= i < b1.len() implies b2[i] == b1[i] by {
                assert(b2.take(b1.len() as int)[i] == b1[i]);
            }
            assert forall|i: int| 0 <= i < b2.len() implies b3[i] == b2[i] by {
                assert(b3.take(b2.len() as int)[i] == b2[i]);
            }
            assert forall|i: int| 0 <= i < b3.len() implies b4[i] == b3[i] by {
                assert(b4.take(b3.len() as int)[i] == b3[i]);
            }
            assert(b2 =~= b1 + seg2);
            assert(b3 =~= b2 + seg3);
            assert(b4 =~= b3 + seg4);
            assert(b1.skip(0) =~= b1);
            assert(b4 =~= seg1 + (seg2 + (seg3 + seg4)));
            if class_canonical(c) {
                assert(all_canonical::<Interface>(seq_view(self.interfaces@)));
                assert(seg4 + Seq::<u8>::empty() =~= seg4);
                assert forall|q: Pool| extends(q, pp) implies #[trigger] decode_parts(b4, q) == Ok::<PartsV, Error>(
                    (c.interfaces, c.fields, c.methods, c.attributes),
                ) by {
                    lemma_extends_trans(at3, pp, q);
                    lemma_extends_trans(at4, pp, q);
                    lemma_extends_trans(at5, pp, q);
                    assert(parse_counted(seg1 + (seg2 + (seg3 + seg4)), q, Interface::parser()) == Ok::<(Seq<Seq<char>>, Seq<u8>), Error>(
                        (c.interfaces, seg2 + (seg3 + seg4)),
                    ));
                    assert(decode_counted_members::<crate::access::FieldAccessModifier>(seg2 + (seg3 + seg4), q) == Ok::<(Seq<MemberV<crate::access::FieldAccessModifier>>, Seq<u8>), Error>(
                        (c.fields, seg3 + seg4),
                    ));
                    assert(decode_counted_members::<crate::access::MethodAccessModifier>(seg3 + seg4, q) == Ok::<(Seq<MemberV<crate::access::MethodAccessModifier>>, Seq<u8>), Error>(
                        (c.methods, seg4),
                    ));
                    assert(decode_counted_attributes(seg4 + Seq::<u8>::empty(), q) == Ok::<(Seq<AttributeV>, Seq<u8>), Error>(
                        (c.attributes, Seq::<u8>::empty()),
                    ));
                    lemma_parts(c, q, seg1, seg2, seg3, seg4);
                }
            }
        }
        Ok(())
    }

    /// Encodes the class: every name and reference is interned into a fresh
    /// constant pool, which is written after the header and before the body.
    /// Decoding the bytes gives the class back wherever it is canonical, as
    /// every decoded class is.
    #[verifier::rlimit(80)]
    pub fn write(&self) -> (r: Result<Vec<u8>, Error>)
        ensures
            r is Ok <==> class_fits(self@),
            match r {
                Ok(b) => (class_canonical(self@) ==> decode_class(b@) == Ok::<ClassV, Error>(self@))
                    && exists|p: Pool, body: Seq<u8>| #[trigger] written_class(self@, p, body, b@),
                Err(e) => encode_error_kind(e),
            },
    {
        let mut pool = ConstantPool::new();
        let (this_index, super_index) = self.write_header_names(&mut pool);
        assert(crate::constant_pool::linked(pool@));
        let ghost at2 = pool@;
        let mut body = ByteWriter::new();
        match self.write_parts(&mut pool, &mut body) {
            Ok(()) => {},
            Err(e) => {
                proof {
                    lemma_attrs_view_len(self.attributes@);
                }
                return Err(e);
            },
        }
        let body_bytes = body.into_bytes();
        let bits = encode_flags(self.access_flags.as_slice());
        let mut out = ByteWriter::new();
        self.version.write(&mut out);
        match pool.write(&mut out) {
            Ok(()) => {},
            Err(e) => return Err(e),
        }
        out.write(bits);
        out.write(this_index);
        out.write(super_index);
        out.write_bytes(body_bytes.as_slice());
        let result = out.into_bytes();
        proof {
            use_type_invariant(&pool);
            let pp = pool@;
            let c = self@;
            lemma_lookups_stable(at2, pp, this_index);
            lemma_lookups_stable(at2, pp, super_index);
            let tail = bytes16(bits) + (bytes16(this_index) + (bytes16(super_index) + body_bytes@));
            assert(result@ =~= bytes32(self.version.magic) + (bytes16(self.version.minor) + (bytes16(self.version.major) + (pool_bytes(pp) + tail))));
            lemma_written_class(c, at2, pp, body_bytes@, result@);
            if class_canonical(c) {
                if self.super_class is Some {
                    assert(super_index != 0);
                }
                lemma_extends_refl(pp);
                assert(decode_parts(body_bytes@, pp) == Ok::<PartsV, Error>((c.interfaces, c.fields, c.methods, c.attributes)));
                lemma_class_bytes(c, pp, result@, tail, bits, this_index, super_index, body_bytes@);
            }
        }
        Ok(result)
    }

    /// Interns `this_class`, then the super class if any, into a fresh pool:
    /// slots 1 and 2, then 3 and 4.
    fn write_header_names(&self, pool: &mut ConstantPool) -> (r: (u16, u16))
        requires
            old(pool)@ == seq![None::<Cp>],
            crate::constant_pool::linked(old(pool)@),
        ensures
            crate::constant_pool::linked(final(pool)@),
            crate::constant_pool::linked(old(pool)@) ==> crate::constant_pool::linked(final(pool)@),
            r.0 == 2,
            r.1 == if self.super_class is Some { 4u16 } else { 0u16 },
            header_pool(self@, final(pool)@),
            class_name_at(final(pool)@, r.0) == Ok::<Seq<char>, Error>(self.this_class@),
            self.super_class matches Some(s) ==> class_name_at(final(pool)@, r.1) == Ok::<Seq<char>, Error>(s@),
            texts_fit(final(pool)@) == (text_fits(self.this_class@) && (self.super_class matches Some(s) ==> text_fits(s@))),
    {
        proof {
            assert(crate::constant_pool::texts_fit(seq![None::<Cp>])) by {
                assert forall|i: int| 0 <= i < 1 implies (#[trigger] seq![None::<Cp>][i] matches Some(Cp::Utf8(t)) ==> crate::mutf8::encode(t).len() <= 0xFFFF) by {}
            }
        }
        let this_index = match ClassRef(self.this_class.clone()).encode(pool) {
            Ok(i) => i,
            Err(_) => 0,
        };
        let ghost at1 = pool@;
        let super_index: u16 = match &self.super_class {
            None => 0,
            Some(name) => match ClassRef(name.clone()).encode(pool) {
                Ok(i) => i,
                Err(_) => 0,
            },
        };
        proof {
            if self.super_class is Some {
                lemma_lookups_stable(at1, pool@, this_index);
            }
        }
        (this_index, super_index)
    }
}

/// Every class that decoding gives is canonical. With the contract of
/// `Class::write`, a class decoded from any bytes is written to bytes that
/// decode to the same class.
pub proof fn lemma_decoded_class_canonical(b: Seq<u8>)
    ensures
        decode_class(b) matches Ok(c) ==> class_canonical(c),
{
    if let Ok((v, s1)) = parse_version(b) {
        if let Ok((p, s2)) = parse_pool(s1) {
            if let Ok((bits, t1)) = parse_u16(s2) {
                lemma_flags_round_trip::<ClassAccessModifier>(bits);
                if let Ok((ti, t2)) = parse_u16(t1) {
                    if let Ok((si, s3)) = parse_u16(t2) {
                        if let Ok((interfaces, s4)) = parse_counted(s3, p, Interface::parser()) {
                            lemma_decoded_members_canonical::<crate::access::FieldAccessModifier>(s4, p);
                            if let Ok((fields, s5)) = decode_counted_members::<crate::access::FieldAccessModifier>(s4, p) {
                                lemma_decoded_members_canonical::<crate::access::MethodAccessModifier>(s5, p);
                                if let Ok((methods, s6)) = decode_counted_members::<crate::access::MethodAccessModifier>(s5, p) {
                                    if let Ok((n, s7)) = parse_u16(s6) {
                                        lemma_decoded_attributes_canonical(s7, n as nat, p);
                                    }
                                }
                            }
                        }
                    }
                }
            }
        }
    }
}

} // verus!
