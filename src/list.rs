use vstd::prelude::*;
use crate::constant_pool::{ConstantPool, Cp, extends, texts_fit, lemma_extends_refl, lemma_extends_trans};
use crate::error::{Error, view_result};
use crate::reader::{ByteReader, outcome};
use crate::writer::ByteWriter;

verus! {

/// A pool, as the spec-level decoders see it.
pub type Pool = Seq<Option<Cp>>;

/// Reads `n` elements with `elem`, each resolved against the pool `p`.
pub open spec fn parse_list<T>(
    s: Seq<u8>,
    n: nat,
    p: Pool,
    elem: spec_fn(Seq<u8>, Pool) -> Result<(T, Seq<u8>), Error>,
) -> Result<(Seq<T>, Seq<u8>), Error>
    decreases n,
{
    if n == 0 {
        Ok((Seq::empty(), s))
    } else {
        match elem(s, p) {
            Err(e) => Err(e),
            Ok((v, s1)) => match parse_list(s1, (n - 1) as nat, p, elem) {
                Err(e) => Err(e),
                Ok((vs, s2)) => Ok((seq![v] + vs, s2)),
            },
        }
    }
}

/// The bytes `b` decode to `v` with `elem` against every pool that extends `p`.
pub open spec fn encodes_elem<T>(
    b: Seq<u8>,
    v: T,
    p: Pool,
    elem: spec_fn(Seq<u8>, Pool) -> Result<(T, Seq<u8>), Error>,
) -> bool {
    forall|q: Pool, rest: Seq<u8>| extends(q, p) ==> #[trigger] elem(b + rest, q) == Ok::<(T, Seq<u8>), Error>((v, rest))
}

/// The concatenation of byte chunks.
pub open spec fn flatten(c: Seq<Seq<u8>>) -> Seq<u8>
    decreases c.len(),
{
    if c.len() == 0 {
        Seq::empty()
    } else {
        c[0] + flatten(c.drop_first())
    }
}

pub proof fn lemma_flatten_push(c: Seq<Seq<u8>>, x: Seq<u8>)
    ensures
        flatten(c.push(x)) == flatten(c) + x,
    decreases c.len(),
{
    if c.len() == 0 {
        assert(c.push(x).drop_first() =~= Seq::<Seq<u8>>::empty());
        assert(flatten(c.push(x)) =~= x + flatten(Seq::<Seq<u8>>::empty()));
    } else {
        lemma_flatten_push(c.drop_first(), x);
        assert(c.push(x).drop_first() =~= c.drop_first().push(x));
        assert(flatten(c.push(x)) =~= c[0] + flatten(c.drop_first().push(x)));
    }
}

pub proof fn lemma_encodes_elem_extend<T>(
    b: Seq<u8>,
    v: T,
    p: Pool,
    at2: Pool,
    elem: spec_fn(Seq<u8>, Pool) -> Result<(T, Seq<u8>), Error>,
)
    requires
        encodes_elem(b, v, p, elem),
        extends(at2, p),
    ensures
        encodes_elem(b, v, at2, elem),
{
    assert forall|q: Pool, rest: Seq<u8>| extends(q, at2) implies #[trigger] elem(b + rest, q) == Ok::<
        (T, Seq<u8>),
        Error,
    >((v, rest)) by {
        lemma_extends_trans(p, at2, q);
    }
}

/// Chunks that each encode one element decode, concatenated, to the list.
pub proof fn lemma_parse_chunks<T>(
    c: Seq<Seq<u8>>,
    v: Seq<T>,
    p: Pool,
    q: Pool,
    rest: Seq<u8>,
    elem: spec_fn(Seq<u8>, Pool) -> Result<(T, Seq<u8>), Error>,
)
    requires
        c.len() == v.len(),
        forall|j: int| 0 <= j < c.len() ==> encodes_elem(#[trigger] c[j], v[j], p, elem),
        extends(q, p),
    ensures
        parse_list(flatten(c) + rest, c.len(), q, elem) == Ok::<(Seq<T>, Seq<u8>), Error>((v, rest)),
    decreases c.len(),
{
    if c.len() == 0 {
        assert(flatten(c) + rest =~= rest);
        assert(v =~= Seq::<T>::empty());
    } else {
        let tail = flatten(c.drop_first()) + rest;
        assert forall|j: int| 0 <= j < c.drop_first().len() implies encodes_elem(
            #[trigger] c.drop_first()[j],
            v.drop_first()[j],
            p,
            elem,
        ) by {
            assert(c.drop_first()[j] == c[j + 1]);
            assert(encodes_elem(c[j + 1], v[j + 1], p, elem));
        }
        lemma_parse_chunks(c.drop_first(), v.drop_first(), p, q, rest, elem);
        assert(encodes_elem(c[0], v[0], p, elem));
        assert(flatten(c) + rest =~= c[0] + tail);
        assert(elem(c[0] + tail, q) == Ok::<(T, Seq<u8>), Error>((v[0], tail)));
        assert(seq![v[0]] + v.drop_first() =~= v);
    }
}


/// Every element that `parse_list` reads satisfies `pred` when every
/// element that `elem` reads does.
pub proof fn lemma_parse_list_all<T>(
    s: Seq<u8>,
    n: nat,
    p: Pool,
    elem: spec_fn(Seq<u8>, Pool) -> Result<(T, Seq<u8>), Error>,
    pred: spec_fn(T) -> bool,
)
    requires
        forall|x: Seq<u8>| #[trigger] elem(x, p) is Ok ==> pred(elem(x, p)->Ok_0.0),
    ensures
        parse_list(s, n, p, elem) matches Ok((v, r)) ==> forall|j: int| 0 <= j < v.len() ==> pred(#[trigger] v[j]),
    decreases n,
{
    if n > 0 {
        if let Ok((x, s1)) = elem(s, p) {
            lemma_parse_list_all(s1, (n - 1) as nat, p, elem, pred);
            if let Ok((vs, s2)) = parse_list(s1, (n - 1) as nat, p, elem) {
                assert forall|j: int| 0 <= j < vs.len() + 1 implies pred(#[trigger] (seq![x] + vs)[j]) by {
                    if j > 0 {
                        assert((seq![x] + vs)[j] == vs[j - 1]);
                    }
                }
            }
        }
    }
}

/// The views of a sequence's elements.
pub open spec fn seq_view<T: View>(s: Seq<T>) -> Seq<T::V> {
    s.map_values(|x: T| x@)
}

/// A result holding a vector, with the vector replaced by its elements' views.
pub open spec fn seq_result<T: View>(r: Result<Vec<T>, Error>) -> Result<Seq<T::V>, Error> {
    match r {
        Ok(v) => Ok(seq_view(v@)),
        Err(e) => Err(e),
    }
}

/// An entry of a table inside an attribute, decoded and encoded against the pool.
pub trait Element: View + Sized {
    /// How an entry is read.
    spec fn parser() -> spec_fn(Seq<u8>, Pool) -> Result<(Self::V, Seq<u8>), Error>;

    /// How many pool slots encoding the entry interns.
    spec fn need(v: Self::V) -> nat;

    /// How many bytes the entry takes on the wire.
    spec fn size(v: Self::V) -> nat;

    /// Every text that the entry interns fits a `Utf8` constant.
    spec fn texts(v: Self::V) -> bool;

    /// The pool after the entry's constants are interned into `p`.
    spec fn pushes(p: Pool, v: Self::V) -> Pool;

    /// The entry reads back as it was written: its flag sets, if any, are
    /// in the form that decoding gives.
    spec fn canonical(v: Self::V) -> bool;

    fn decode(reader: &mut ByteReader, pool: &ConstantPool) -> (r: Result<Self, Error>)
        ensures
            outcome((Self::parser())(old(reader)@, pool@), view_result(r), final(reader)@),
    ;

    fn encode(&self, pool: &mut ConstantPool, writer: &mut ByteWriter) -> (r: Result<(), Error>)
        ensures
            r is Ok ==> (crate::constant_pool::linked(old(pool)@) ==> crate::constant_pool::linked(final(pool)@)),
            r is Ok <==> old(pool)@.len() + Self::need(self@) <= 0xFFFF,
            match r {
                Ok(()) => extends(final(pool)@, old(pool)@)
                    && final(pool)@.len() == old(pool)@.len() + Self::need(self@)
                    && final(pool)@ == Self::pushes(old(pool)@, self@)
                    && texts_fit(final(pool)@) == (texts_fit(old(pool)@) && Self::texts(self@))
                    && final(writer)@.len() == old(writer)@.len() + Self::size(self@)
                    && final(writer)@.take(old(writer)@.len() as int) == old(writer)@
                    && (Self::canonical(self@) ==> encodes_elem(final(writer)@.skip(old(writer)@.len() as int), self@, final(pool)@, Self::parser())),
                Err(e) => e == Error::TooLarge,
            },
    ;
}

/// Every text that the entries intern fits a `Utf8` constant.
pub open spec fn all_texts<T: Element>(v: Seq<T::V>) -> bool {
    forall|j: int| 0 <= j < v.len() ==> T::texts(#[trigger] v[j])
}

proof fn lemma_all_texts_push<T: Element>(v: Seq<T::V>, k: int)
    requires
        0 <= k < v.len(),
    ensures
        all_texts::<T>(v.take(k + 1)) == (all_texts::<T>(v.take(k)) && T::texts(v[k])),
{
    let a = v.take(k);
    let b = v.take(k + 1);
    assert(b[k] == v[k]);
    if all_texts::<T>(a) && T::texts(v[k]) {
        assert forall|j: int| 0 <= j < b.len() implies T::texts(#[trigger] b[j]) by {
            if j < k {
                assert(b[j] == a[j]);
            }
        }
    }
    if all_texts::<T>(b) {
        assert forall|j: int| 0 <= j < a.len() implies T::texts(#[trigger] a[j]) by {
            assert(b[j] == a[j]);
        }
        assert(T::texts(b[k]));
    }
}

/// The summed sizes of the entries.
pub open spec fn seq_size<T: Element>(v: Seq<T::V>) -> nat
    decreases v.len(),
{
    if v.len() == 0 {
        0
    } else {
        seq_size::<T>(v.drop_last()) + T::size(v.last())
    }
}

/// The pool after the entries' constants are interned into `p`, in order.
pub open spec fn seq_pushes<T: Element>(p: Pool, v: Seq<T::V>) -> Pool
    decreases v.len(),
{
    if v.len() == 0 {
        p
    } else {
        T::pushes(seq_pushes::<T>(p, v.drop_last()), v.last())
    }
}

/// The pool slots that encoding the entries interns.
pub open spec fn seq_need<T: Element>(v: Seq<T::V>) -> nat
    decreases v.len(),
{
    if v.len() == 0 {
        0
    } else {
        seq_need::<T>(v.drop_last()) + T::need(v.last())
    }
}

proof fn lemma_seq_need_mono<T: Element>(v: Seq<T::V>, k: int)
    requires
        0 <= k <= v.len(),
    ensures
        seq_need::<T>(v.take(k)) <= seq_need::<T>(v),
    decreases v.len(),
{
    if k < v.len() {
        lemma_seq_need_mono::<T>(v.drop_last(), k);
        assert(v.drop_last().take(k) =~= v.take(k));
    } else {
        assert(v.take(k) =~= v);
    }
}

/// Reads `n` entries.
pub fn decode_list<T: Element>(reader: &mut ByteReader, pool: &ConstantPool, n: usize) -> (r: Result<Vec<T>, Error>)
    ensures
        outcome(parse_list(old(reader)@, n as nat, pool@, T::parser()), seq_result(r), final(reader)@),
{
    let ghost s0 = reader@;
    let mut out: Vec<T> = Vec::new();
    let mut k: usize = 0;
    proof {
        if let Ok((v, s2)) = parse_list(s0, n as nat, pool@, T::parser()) {
            assert(seq_view(out@) + v =~= v);
        }
    }
    while k < n
        invariant
            k <= n,
            s0 == old(reader)@,
            parse_list(s0, n as nat, pool@, T::parser()) == match parse_list(reader@, (n - k) as nat, pool@, T::parser()) {
                Ok((rest, s2)) => Ok((seq_view(out@) + rest, s2)),
                Err(e) => Err::<(Seq<T::V>, Seq<u8>), Error>(e),
            },
        decreases n - k,
    {
        let ghost before = reader@;
        let x = match T::decode(reader, pool) {
            Ok(x) => x,
            Err(e) => {
                assert(parse_list(before, (n - k) as nat, pool@, T::parser()) == Err::<(Seq<T::V>, Seq<u8>), Error>(e));
                return Err(e);
            },
        };
        proof {
            if let Ok((rest, s2)) = parse_list(reader@, (n - k - 1) as nat, pool@, T::parser()) {
                assert(seq_view(out@) + (seq![x@] + rest) =~= seq_view(out@.push(x)) + rest);
            }
        }
        out.push(x);
        k = k + 1;
    }
    proof {
        assert(seq_view(out@) + Seq::<T::V>::empty() =~= seq_view(out@));
    }
    Ok(out)
}

/// Writes the entries in order (without a count), interning into `pool`.
pub fn encode_list<T: Element>(items: &Vec<T>, pool: &mut ConstantPool, writer: &mut ByteWriter) -> (r: Result<(), Error>)
    ensures
        r is Ok ==> (crate::constant_pool::linked(old(pool)@) ==> crate::constant_pool::linked(final(pool)@)),
        r is Ok <==> old(pool)@.len() + seq_need::<T>(seq_view(items@)) <= 0xFFFF,
        match r {
            Ok(()) => extends(final(pool)@, old(pool)@)
                && final(pool)@.len() == old(pool)@.len() + seq_need::<T>(seq_view(items@))
                && final(pool)@ == seq_pushes::<T>(old(pool)@, seq_view(items@))
                && texts_fit(final(pool)@) == (texts_fit(old(pool)@) && all_texts::<T>(seq_view(items@)))
                && final(writer)@.len() == old(writer)@.len() + seq_size::<T>(seq_view(items@))
                && final(writer)@.take(old(writer)@.len() as int) == old(writer)@
                && (all_canonical::<T>(seq_view(items@)) ==> encodes_list(final(writer)@.skip(old(writer)@.len() as int), seq_view(items@), final(pool)@, T::parser())),
            Err(e) => e == Error::TooLarge,
        },
{
    let ghost v = seq_view(items@);
    let ghost at0 = pool@;
    let ghost w0 = writer@;
    let ghost mut chunks: Seq<Seq<u8>> = Seq::empty();
    let mut k: usize = 0;
    proof {
        lemma_extends_refl(at0);
        assert(v.take(0) =~= Seq::<T::V>::empty());
        assert(w0 + flatten(chunks) =~= w0);
    }
    while k < items.len()
        invariant
            k <= items@.len(),
            at0 == old(pool)@,
            w0 == old(writer)@,
            v == seq_view(items@),
            v.len() == items@.len(),
            extends(pool@, at0),
            crate::constant_pool::linked(at0) ==> crate::constant_pool::linked(pool@),
            pool@ == seq_pushes::<T>(at0, v.take(k as int)),
            writer@.len() == w0.len() + seq_size::<T>(v.take(k as int)),
            texts_fit(pool@) == (texts_fit(at0) && all_texts::<T>(v.take(k as int))),
            pool@.len() == at0.len() + seq_need::<T>(v.take(k as int)),
            writer@ == w0 + flatten(chunks),
            chunks.len() == k,
            forall|j: int| 0 <= j < k ==> T::canonical(v[j]) ==> encodes_elem(#[trigger] chunks[j], v[j], pool@, T::parser()),
        decreases items@.len() - k,
    {
        let ghost at1 = pool@;
        let ghost w1 = writer@;
        proof {
            assert(v.take(k + 1).drop_last() =~= v.take(k as int));
            assert(v.take(k + 1).last() == v[k as int]);
        }
        match items[k].encode(pool, writer) {
            Ok(()) => {},
            Err(e) => {
                proof {
                    use_type_invariant(&*pool);
                    lemma_seq_need_mono::<T>(v, k + 1);
                }
                return Err(e);
            },
        }
        proof {
            let b = writer@.skip(w1.len() as int);
            assert forall|i: int| 0 <= i < w1.len() implies writer@[i] == w1[i] by {
                assert(writer@.take(w1.len() as int)[i] == w1[i]);
            }
            assert(writer@ =~= w1 + b);
            lemma_flatten_push(chunks, b);
            assert forall|j: int| 0 <= j < k && T::canonical(v[j]) implies encodes_elem(#[trigger] chunks[j], v[j], pool@, T::parser()) by {
                lemma_encodes_elem_extend(chunks[j], v[j], at1, pool@, T::parser());
            }
            lemma_all_texts_push::<T>(v, k as int);
            lemma_extends_trans(at0, at1, pool@);
            chunks = chunks.push(b);
        }
        k = k + 1;
    }
    proof {
        use_type_invariant(&*pool);
        assert(v.take(k as int) =~= v);
        assert(writer@.take(w0.len() as int) =~= w0);
        assert(writer@.skip(w0.len() as int) =~= flatten(chunks));
        assert forall|q: Pool, rest: Seq<u8>| extends(q, pool@) && all_canonical::<T>(v) implies #[trigger] parse_list(
            writer@.skip(w0.len() as int) + rest,
            v.len(),
            q,
            T::parser(),
        ) == Ok::<(Seq<T::V>, Seq<u8>), Error>((v, rest)) by {
            lemma_parse_chunks(chunks, v, pool@, q, rest, T::parser());
        }
    }
    Ok(())
}

/// Every entry is canonical.
pub open spec fn all_canonical<T: Element>(v: Seq<T::V>) -> bool {
    forall|j: int| 0 <= j < v.len() ==> T::canonical(#[trigger] v[j])
}

/// The bytes `b` decode to the list `v` against every pool that extends `p`.
pub open spec fn encodes_list<T>(
    b: Seq<u8>,
    v: Seq<T>,
    p: Pool,
    elem: spec_fn(Seq<u8>, Pool) -> Result<(T, Seq<u8>), Error>,
) -> bool {
    forall|q: Pool, rest: Seq<u8>|
        extends(q, p) ==> #[trigger] parse_list(b + rest, v.len(), q, elem) == Ok::<(Seq<T>, Seq<u8>), Error>((v, rest))
}

} // verus!
