use vstd::prelude::*;
use crate::access::{
    AccessFlag, FieldAccessModifier, MethodAccessModifier, decode_flags, encode_flags, flags_of,
    lemma_flags_round_trip, mask_of,
};
use crate::attributes::{
    Attribute, AttributeV, attrs_canonical, attrs_each_fit, attrs_items_len, attrs_need, attrs_texts,
    attrs_view, decode_counted_attributes, encode_error_kind, lemma_attrs_view_len, lemma_decoded_attributes_canonical, read_attributes,
    write_attributes,
};
use crate::constant_pool::{
    ConstantPool, Cp, extends, lemma_extends_refl, pushed, text_fits, texts_fit, lemma_extends_trans, lemma_lookups_stable, lemma_parse_u16,
    utf8_at,
};
use crate::error::{Error, view_result};
use crate::list::{Pool, encodes_elem, lemma_parse_list_all, flatten, lemma_encodes_elem_extend, lemma_flatten_push, lemma_parse_chunks, parse_list};
use crate::reader::{ByteReader, outcome, parse_u16};
use crate::writer::{ByteWriter, bytes16};

verus! {

/// The value of a field or method.
pub struct MemberV<F> {
    pub access_flags: Seq<F>,
    pub name: Seq<char>,
    pub descriptor: Seq<char>,
    pub attributes: Seq<AttributeV>,
}

/// Reads a field or method: access flags, name index, descriptor index and
/// attributes, resolved against the pool in that order.
pub open spec fn decode_member<F: AccessFlag>(s: Seq<u8>, p: Pool) -> Result<(MemberV<F>, Seq<u8>), Error> {
    match parse_u16(s) {
        Err(e) => Err(e),
        Ok((bits, s1)) => match parse_u16(s1) {
            Err(e) => Err(e),
            Ok((ni, s2)) => match utf8_at(p, ni) {
                Err(e) => Err(e),
                Ok(name) => match parse_u16(s2) {
                    Err(e) => Err(e),
                    Ok((di, s3)) => match utf8_at(p, di) {
                        Err(e) => Err(e),
                        Ok(descriptor) => match decode_counted_attributes(s3, p) {
                            Err(e) => Err(e),
                            Ok((attributes, s4)) => Ok(
                                (MemberV { access_flags: flags_of(bits), name, descriptor, attributes }, s4),
                            ),
                        },
                    },
                },
            },
        },
    }
}

pub open spec fn member_parser<F: AccessFlag>() -> spec_fn(Seq<u8>, Pool) -> Result<(MemberV<F>, Seq<u8>), Error> {
    |s: Seq<u8>, q: Pool| decode_member::<F>(s, q)
}

/// The pool slots that encoding a member interns: name, descriptor, attributes.
pub open spec fn member_need<F>(m: MemberV<F>) -> nat {
    2 + attrs_need(m.attributes)
}

/// The member can be encoded: its attributes fit their count and each fits.
pub open spec fn member_fits<F>(m: MemberV<F>) -> bool {
    m.attributes.len() <= 0xFFFF && attrs_each_fit(m.attributes)
}

/// Every text that encoding the member interns fits a `Utf8` constant.
pub open spec fn member_texts<F>(m: MemberV<F>) -> bool {
    text_fits(m.name) && text_fits(m.descriptor) && attrs_texts(m.attributes)
}

/// The pool slots that encoding members interns.
pub open spec fn members_need<F>(s: Seq<MemberV<F>>) -> nat
    decreases s.len(),
{
    if s.len() == 0 {
        0
    } else {
        members_need(s.drop_last()) + member_need(s.last())
    }
}

/// Every member can be encoded.
pub open spec fn members_fit<F>(s: Seq<MemberV<F>>) -> bool {
    forall|j: int| 0 <= j < s.len() ==> member_fits(#[trigger] s[j])
}

/// Every text that encoding the members interns fits a `Utf8` constant.
pub open spec fn members_texts<F>(s: Seq<MemberV<F>>) -> bool {
    forall|j: int| 0 <= j < s.len() ==> member_texts(#[trigger] s[j])
}

proof fn lemma_members_step<F>(v: Seq<MemberV<F>>, k: int)
    requires
        0 <= k < v.len(),
    ensures
        members_need(v.take(k + 1)) == members_need(v.take(k)) + member_need(v[k]),
        members_need(v.take(k + 1)) <= members_need(v),
        members_fit(v.take(k + 1)) == (members_fit(v.take(k)) && member_fits(v[k])),
        members_texts(v.take(k + 1)) == (members_texts(v.take(k)) && member_texts(v[k])),
    decreases v.len(),
{
    let a = v.take(k);
    let b = v.take(k + 1);
    assert(b.drop_last() =~= a);
    assert(b.last() == v[k]);
    if k + 1 < v.len() {
        lemma_members_step(v.drop_last(), k);
        assert(v.drop_last().take(k + 1) =~= b);
        assert(v.drop_last().take(k) =~= a);
    } else {
        assert(b =~= v);
    }
    if members_fit(a) && member_fits(v[k]) {
        assert forall|j: int| 0 <= j < b.len() implies member_fits(#[trigger] b[j]) by {
            if j < k {
                assert(b[j] == a[j]);
            }
        }
    }
    if members_fit(b) {
        assert forall|j: int| 0 <= j < a.len() implies member_fits(#[trigger] a[j]) by {
            assert(b[j] == a[j]);
        }
        assert(member_fits(b[k]));
    }
    if members_texts(a) && member_texts(v[k]) {
        assert forall|j: int| 0 <= j < b.len() implies member_texts(#[trigger] b[j]) by {
            if j < k {
                assert(b[j] == a[j]);
            }
        }
    }
    if members_texts(b) {
        assert forall|j: int| 0 <= j < a.len() implies member_texts(#[trigger] a[j]) by {
            assert(b[j] == a[j]);
        }
        assert(member_texts(b[k]));
    }
}

/// The member reads back as it is written.
pub open spec fn member_canonical<F: AccessFlag>(m: MemberV<F>) -> bool {
    flags_of::<F>(mask_of(m.access_flags)) == m.access_flags && attrs_canonical(m.attributes)
}

/// A field or a method: access flags of its scope `F`, name, descriptor and attributes.
#[derive(Debug, PartialEq, Eq)]
pub struct Member<F> {
    pub access_flags: Vec<F>,
    pub name: String,
    pub descriptor: String,
    pub attributes: Vec<Attribute>,
}

/// A field of a class.
pub type Field = Member<FieldAccessModifier>;

/// A method of a class.
pub type Method = Member<MethodAccessModifier>;

impl<F: AccessFlag> View for Member<F> {
    type V = MemberV<F>;

    open spec fn view(&self) -> MemberV<F> {
        MemberV {
            access_flags: self.access_flags@,
            name: self.name@,
            descriptor: self.descriptor@,
            attributes: attrs_view(self.attributes@),
        }
    }
}

impl Member<FieldAccessModifier> {
    /// A field with the given parts.
    pub fn new(
        access_flags: Vec<FieldAccessModifier>,
        name: String,
        descriptor: String,
        attributes: Vec<Attribute>,
    ) -> (r: Field)
        ensures
            r.access_flags == access_flags,
            r.name == name,
            r.descriptor == descriptor,
            r.attributes == attributes,
    {
        Member { access_flags, name, descriptor, attributes }
    }
}

impl<F: AccessFlag> Member<F> {
    /// Reads a member and resolves its names and attributes.
    pub fn decode(reader: &mut ByteReader, pool: &ConstantPool) -> (r: Result<Member<F>, Error>)
        ensures
            outcome(decode_member::<F>(old(reader)@, pool@), view_result(r), final(reader)@),
    {
        let bits = reader.take_u16()?;
        let name_index = reader.take_u16()?;
        let name = pool.get_utf8(name_index)?;
        let descriptor_index = reader.take_u16()?;
        let descriptor = pool.get_utf8(descriptor_index)?;
        let count = reader.take_u16()?;
        let attributes = read_attributes(reader, pool, count as usize)?;
        Ok(Member { access_flags: decode_flags(bits), name, descriptor, attributes })
    }

    /// Writes the member, interning its name, descriptor and attributes.
    #[verifier::rlimit(80)]
    pub fn encode(&self, pool: &mut ConstantPool, writer: &mut ByteWriter) -> (r: Result<(), Error>)
        ensures
            r is Ok ==> (crate::constant_pool::linked(old(pool)@) ==> crate::constant_pool::linked(final(pool)@)),
            r is Ok <==> member_fits(self@) && old(pool)@.len() + member_need(self@) <= 0xFFFF,
            match r {
                Ok(()) => extends(final(pool)@, old(pool)@)
                    && final(pool)@[old(pool)@.len() as int] == Some(Cp::Utf8(self.name@))
                    && final(pool)@[old(pool)@.len() + 1int] == Some(Cp::Utf8(self.descriptor@))
                    && final(pool)@.len() == old(pool)@.len() + member_need(self@)
                    && texts_fit(final(pool)@) == (texts_fit(old(pool)@) && member_texts(self@))
                    && final(writer)@.len() == old(writer)@.len() + 8 + attrs_items_len(self@.attributes)
                    && final(writer)@.take(old(writer)@.len() as int) == old(writer)@
                    && (member_canonical(self@) ==> encodes_elem(
                        final(writer)@.skip(old(writer)@.len() as int),
                        self@,
                        final(pool)@,
                        member_parser::<F>(),
                    )),
                Err(e) => encode_error_kind(e),
            },
    {
        proof {
            use_type_invariant(&*pool);
            lemma_attrs_view_len(self.attributes@);
        }
        let ghost at0 = pool@;
        let ni = intern_text(&self.name, pool)?;
        let ghost at1 = pool@;
        let di = intern_text(&self.descriptor, pool)?;
        let ghost at2 = pool@;
        proof {
            assert(at2[at0.len() as int] == at1[at0.len() as int]);
        }
        let bits = encode_flags(self.access_flags.as_slice());
        let ghost w0 = writer@;
        writer.write(bits);
        writer.write(ni);
        writer.write(di);
        let ghost w1 = writer@;
        write_attributes(&self.attributes, pool, writer)?;
        proof {
            use_type_invariant(&*pool);
            assert(pool@.take(at2.len() as int)[at0.len() as int] == at2[at0.len() as int]);
            assert(pool@.take(at2.len() as int)[at0.len() + 1int] == at2[at0.len() + 1int]);
            lemma_extends_trans(at0, at1, at2);
            lemma_extends_trans(at0, at2, pool@);
            lemma_extends_trans(at1, at2, pool@);
            lemma_lookups_stable(at1, pool@, ni);
            lemma_lookups_stable(at2, pool@, di);
            let attrs = writer@.skip(w1.len() as int);
            assert forall|i: int| 0 <= i < w1.len() implies writer@[i] == w1[i] by {
                assert(writer@.take(w1.len() as int)[i] == w1[i]);
            }
            assert(writer@ =~= w1 + attrs);
            let b = writer@.skip(w0.len() as int);
            assert(b =~= bytes16(bits) + bytes16(ni) + bytes16(di) + attrs);
            assert(writer@.take(w0.len() as int) =~= w0);
            if member_canonical(self@) {
                assert forall|q: Pool, rest: Seq<u8>| extends(q, pool@) implies #[trigger] (member_parser::<F>())(b + rest, q)
                    == Ok::<(MemberV<F>, Seq<u8>), Error>((self@, rest)) by {
                    let s3 = attrs + rest;
                    let s2 = bytes16(di) + s3;
                    let s1 = bytes16(ni) + s2;
                    assert(b + rest =~= bytes16(bits) + s1);
                    lemma_parse_u16(bits, s1);
                    lemma_parse_u16(ni, s2);
                    lemma_parse_u16(di, s3);
                    lemma_lookups_stable(pool@, q, ni);
                    lemma_lookups_stable(pool@, q, di);
                    assert(decode_counted_attributes(attrs + rest, q) == Ok::<(Seq<AttributeV>, Seq<u8>), Error>((attrs_view(self.attributes@), rest)));
                }
            }
        }
        Ok(())
    }
}

/// Interns a text as `Utf8`.
fn intern_text(text: &String, pool: &mut ConstantPool) -> (r: Result<u16, Error>)
    ensures
        r is Ok ==> (crate::constant_pool::linked(old(pool)@) ==> crate::constant_pool::linked(final(pool)@)),
        r is Ok <==> old(pool)@.len() + 1 <= 0xFFFF,
        match r {
            Ok(i) => extends(final(pool)@, old(pool)@) && utf8_at(final(pool)@, i) == Ok::<Seq<char>, Error>(text@)
                && i as int == old(pool)@.len() && final(pool)@ == pushed(old(pool)@, Cp::Utf8(text@))
                && texts_fit(final(pool)@) == (texts_fit(old(pool)@) && text_fits(text@)),
            Err(e) => e == Error::TooLarge,
        },
{
    proof {
        crate::constant_pool::lemma_extends_pushed(pool@, crate::constant_pool::Cp::Utf8(text@));
    }
    pool.push(crate::constant_pool::CpInfo::Utf8 { string: text.clone() })
}

/// The values of a sequence of members.
pub open spec fn members_view<F: AccessFlag>(s: Seq<Member<F>>) -> Seq<MemberV<F>> {
    s.map_values(|m: Member<F>| m@)
}

/// Reads `n` members.
pub fn decode_members<F: AccessFlag>(reader: &mut ByteReader, pool: &ConstantPool, n: usize) -> (r: Result<Vec<Member<F>>, Error>)
    ensures
        outcome(
            parse_list(old(reader)@, n as nat, pool@, member_parser::<F>()),
            match r { Ok(v) => Ok::<Seq<MemberV<F>>, Error>(members_view(v@)), Err(e) => Err(e) },
            final(reader)@,
        ),
{
    let ghost s0 = reader@;
    let mut out: Vec<Member<F>> = Vec::new();
    let mut k: usize = 0;
    proof {
        if let Ok((v, s2)) = parse_list(s0, n as nat, pool@, member_parser::<F>()) {
            assert(members_view(out@) + v =~= v);
        }
    }
    while k < n
        invariant
            k <= n,
            s0 == old(reader)@,
            parse_list(s0, n as nat, pool@, member_parser::<F>()) == match parse_list(reader@, (n - k) as nat, pool@, member_parser::<F>()) {
                Ok((rest, s2)) => Ok((members_view(out@) + rest, s2)),
                Err(e) => Err::<(Seq<MemberV<F>>, Seq<u8>), Error>(e),
            },
        decreases n - k,
    {
        let ghost before = reader@;
        let x = match Member::<F>::decode(reader, pool) {
            Ok(x) => x,
            Err(e) => {
                assert(parse_list(before, (n - k) as nat, pool@, member_parser::<F>()) == Err::<(Seq<MemberV<F>>, Seq<u8>), Error>(e));
                return Err(e);
            },
        };
        proof {
            if let Ok((rest, s2)) = parse_list(reader@, (n - k - 1) as nat, pool@, member_parser::<F>()) {
                assert(members_view(out@) + (seq![x@] + rest) =~= members_view(out@.push(x)) + rest);
            }
        }
        out.push(x);
        k = k + 1;
    }
    proof {
        assert(members_view(out@) + Seq::<MemberV<F>>::empty() =~= members_view(out@));
    }
    Ok(out)
}

/// Every member is canonical.
pub open spec fn members_canonical<F: AccessFlag>(v: Seq<MemberV<F>>) -> bool {
    forall|j: int| 0 <= j < v.len() ==> member_canonical(#[trigger] v[j])
}

/// `b` holds a two-byte count and members that decode to `v` against every
/// pool that extends `p`.
pub open spec fn encodes_members<F: AccessFlag>(b: Seq<u8>, v: Seq<MemberV<F>>, p: Pool) -> bool {
    forall|q: Pool, rest: Seq<u8>|
        extends(q, p) ==> #[trigger] decode_counted_members::<F>(b + rest, q) == Ok::<(Seq<MemberV<F>>, Seq<u8>), Error>((v, rest))
}

/// A two-byte count, then that many members.
pub open spec fn decode_counted_members<F: AccessFlag>(s: Seq<u8>, p: Pool) -> Result<(Seq<MemberV<F>>, Seq<u8>), Error> {
    match parse_u16(s) {
        Err(e) => Err(e),
        Ok((n, s1)) => parse_list(s1, n as nat, p, member_parser::<F>()),
    }
}

/// Writes a two-byte count, then the members.
pub fn encode_members<F: AccessFlag>(members: &Vec<Member<F>>, pool: &mut ConstantPool, writer: &mut ByteWriter) -> (r: Result<(), Error>)
    ensures
        r is Ok ==> (crate::constant_pool::linked(old(pool)@) ==> crate::constant_pool::linked(final(pool)@)),
        r is Ok <==> members@.len() <= 0xFFFF && members_fit(members_view(members@)) && old(pool)@.len()
            + members_need(members_view(members@)) <= 0xFFFF,
        match r {
            Ok(()) => extends(final(pool)@, old(pool)@)
                && final(pool)@.len() == old(pool)@.len() + members_need(members_view(members@))
                && texts_fit(final(pool)@) == (texts_fit(old(pool)@) && members_texts(members_view(members@)))
                && final(writer)@.len() >= old(writer)@.len()
                && final(writer)@.take(old(writer)@.len() as int) == old(writer)@
                && (members_canonical(members_view(members@)) ==> encodes_members(
                    final(writer)@.skip(old(writer)@.len() as int),
                    members_view(members@),
                    final(pool)@,
                )),
            Err(e) => encode_error_kind(e),
        },
{
    if members.len() > 0xFFFF {
        return Err(Error::TooLarge);
    }
    let ghost v = members_view(members@);
    let ghost at0 = pool@;
    let ghost w0 = writer@;
    writer.write(members.len() as u16);
    let ghost w1 = writer@;
    let ghost mut chunks: Seq<Seq<u8>> = Seq::empty();
    let mut k: usize = 0;
    proof {
        lemma_extends_refl(at0);
        assert(w1 + flatten(chunks) =~= w1);
        assert(v.take(0) =~= Seq::<MemberV<F>>::empty());
    }
    while k < members.len()
        invariant
            k <= members@.len(),
            members@.len() <= 0xFFFF,
            v == members_view(members@),
            at0 == old(pool)@,
            w0 == old(writer)@,
            w1 == w0 + bytes16(members@.len() as u16),
            extends(pool@, at0),
            crate::constant_pool::linked(at0) ==> crate::constant_pool::linked(pool@),
            writer@ == w1 + flatten(chunks),
            chunks.len() == k,
            v.len() == members@.len(),
            pool@.len() == at0.len() + members_need(v.take(k as int)),
            texts_fit(pool@) == (texts_fit(at0) && members_texts(v.take(k as int))),
            members_fit(v.take(k as int)),
            members_canonical(v) ==> forall|j: int| 0 <= j < k ==> encodes_elem(#[trigger] chunks[j], v[j], pool@, member_parser::<F>()),
        decreases members@.len() - k,
    {
        let ghost at1 = pool@;
        let ghost w2 = writer@;
        proof {
            lemma_members_step(v, k as int);
            assert(v[k as int] == members@[k as int]@);
        }
        match members[k].encode(pool, writer) {
            Ok(()) => {},
            Err(e) => {
                proof {
                    use_type_invariant(&*pool);
                }
                return Err(e);
            },
        }
        proof {
            let b = writer@.skip(w2.len() as int);
            assert forall|i: int| 0 <= i < w2.len() implies writer@[i] == w2[i] by {
                assert(writer@.take(w2.len() as int)[i] == w2[i]);
            }
            assert(writer@ =~= w2 + b);
            lemma_flatten_push(chunks, b);
            lemma_extends_trans(at0, at1, pool@);
            if members_canonical(v) {
                assert(member_canonical(v[k as int]));
                assert forall|j: int| 0 <= j < k + 1 implies encodes_elem(#[trigger] chunks.push(b)[j], v[j], pool@, member_parser::<F>()) by {
                    if j < k {
                        assert(chunks.push(b)[j] == chunks[j]);
                        lemma_encodes_elem_extend(chunks[j], v[j], at1, pool@, member_parser::<F>());
                    }
                }
            }
            chunks = chunks.push(b);
        }
        k = k + 1;
    }
    proof {
        use_type_invariant(&*pool);
        assert(v.take(k as int) =~= v);
        assert(writer@.take(w0.len() as int) =~= w0);
        let items = flatten(chunks);
        assert(writer@.skip(w0.len() as int) =~= bytes16(members@.len() as u16) + items);
        if members_canonical(v) {
            assert forall|q: Pool, rest: Seq<u8>| extends(q, pool@) implies #[trigger] decode_counted_members::<F>(
                writer@.skip(w0.len() as int) + rest,
                q,
            ) == Ok::<(Seq<MemberV<F>>, Seq<u8>), Error>((v, rest)) by {
                assert(writer@.skip(w0.len() as int) + rest =~= bytes16(members@.len() as u16) + (items + rest));
                lemma_parse_u16(members@.len() as u16, items + rest);
                lemma_parse_chunks(chunks, v, pool@, q, rest, member_parser::<F>());
            }
        }
    }
    Ok(())
}


proof fn lemma_decoded_member_canonical<F: AccessFlag>(s: Seq<u8>, p: Pool)
    ensures
        decode_member::<F>(s, p) matches Ok((m, r)) ==> member_canonical(m),
{
    if let Ok((bits, s1)) = parse_u16(s) {
        lemma_flags_round_trip::<F>(bits);
        if let Ok((ni, s2)) = parse_u16(s1) {
            if let Ok((di, s3)) = parse_u16(s2) {
                if let Ok((n, s4)) = parse_u16(s3) {
                    lemma_decoded_attributes_canonical(s4, n as nat, p);
                }
            }
        }
    }
}

/// Every run of members that decoding gives is canonical.
pub proof fn lemma_decoded_members_canonical<F: AccessFlag>(s: Seq<u8>, p: Pool)
    ensures
        decode_counted_members::<F>(s, p) matches Ok((v, r)) ==> members_canonical(v),
{
    if let Ok((n, s1)) = parse_u16(s) {
        assert forall|x: Seq<u8>| #[trigger] (member_parser::<F>())(x, p) is Ok implies (|m: MemberV<F>| member_canonical(m))(
            (member_parser::<F>())(x, p)->Ok_0.0,
        ) by {
            lemma_decoded_member_canonical::<F>(x, p);
        }
        lemma_parse_list_all(s1, n as nat, p, member_parser::<F>(), |m: MemberV<F>| member_canonical(m));
    }
}

} // verus!
