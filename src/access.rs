use vstd::prelude::*;

verus! {

/// `m` has exactly one bit set.
pub open spec fn single_bit(m: u16) -> bool {
    m == 0x1 || m == 0x2 || m == 0x4 || m == 0x8 || m == 0x10 || m == 0x20 || m == 0x40 || m
        == 0x80 || m == 0x100 || m == 0x200 || m == 0x400 || m == 0x800 || m == 0x1000 || m
        == 0x2000 || m == 0x4000 || m == 0x8000
}

/// An access modifier of one scope (class, field, method or method parameter),
/// each with its own 16-bit mask.
pub trait AccessFlag: Sized + Copy {
    /// The modifier's bit.
    spec fn spec_mask(&self) -> u16;

    /// The scope's modifiers in declaration order.
    spec fn spec_all() -> Seq<Self>;

    fn mask(&self) -> (r: u16)
        ensures
            r == self.spec_mask(),
    ;

    /// The scope's modifiers in declaration order.
    fn variants() -> (r: Vec<Self>)
        ensures
            r@ == Self::spec_all(),
    ;

    proof fn lemma_single_bits()
        ensures
            forall|f: Self| single_bit(#[trigger] f.spec_mask()),
    ;
}

/// The modifiers of `t` whose bit is set in `bits`, in the order of `t`.
pub open spec fn select<F: AccessFlag>(t: Seq<F>, bits: u16) -> Seq<F>
    decreases t.len(),
{
    if t.len() == 0 {
        Seq::empty()
    } else if bits & t.last().spec_mask() != 0 {
        select(t.drop_last(), bits).push(t.last())
    } else {
        select(t.drop_last(), bits)
    }
}

/// The modifiers that `bits` holds, in declaration order; other bits are ignored.
pub open spec fn flags_of<F: AccessFlag>(bits: u16) -> Seq<F> {
    select(F::spec_all(), bits)
}

/// The bitwise or of the modifiers' masks.
pub open spec fn mask_of<F: AccessFlag>(s: Seq<F>) -> u16
    decreases s.len(),
{
    if s.len() == 0 {
        0
    } else {
        mask_of(s.drop_last()) | s.last().spec_mask()
    }
}

/// Decodes an access-flags word into the modifiers of scope `F`.
pub fn decode_flags<F: AccessFlag>(bits: u16) -> (r: Vec<F>)
    ensures
        r@ == flags_of::<F>(bits),
{
    let all = F::variants();
    let mut out: Vec<F> = Vec::new();
    let mut i: usize = 0;
    while i < all.len()
        invariant
            i <= all@.len(),
            all@ == F::spec_all(),
            out@ == select(all@.take(i as int), bits),
        decreases all@.len() - i,
    {
        let f = all[i];
        proof {
            assert(all@.take(i + 1).drop_last() =~= all@.take(i as int));
        }
        if bits & f.mask() != 0 {
            out.push(f);
        }
        i = i + 1;
    }
    assert(all@.take(i as int) =~= all@);
    out
}

/// Encodes modifiers as the bitwise or of their masks.
pub fn encode_flags<F: AccessFlag>(flags: &[F]) -> (r: u16)
    ensures
        r == mask_of(flags@),
{
    let mut bits: u16 = 0;
    let mut i: usize = 0;
    while i < flags.len()
        invariant
            i <= flags@.len(),
            bits == mask_of(flags@.take(i as int)),
        decreases flags@.len() - i,
    {
        proof {
            assert(flags@.take(i + 1).drop_last() =~= flags@.take(i as int));
        }
        bits = bits | flags[i].mask();
        i = i + 1;
    }
    assert(flags@.take(i as int) =~= flags@);
    bits
}

proof fn lemma_select_mask<F: AccessFlag>(t: Seq<F>, b: u16)
    ensures
        mask_of(select(t, b)) == b & mask_of(t),
    decreases t.len(),
{
    F::lemma_single_bits();
    if t.len() == 0 {
        assert(b & 0 == 0) by (bit_vector);
    } else {
        lemma_select_mask(t.drop_last(), b);
        let m = t.last().spec_mask();
        let u = mask_of(t.drop_last());
        assert(single_bit(m));
        if b & m != 0 {
            let s = select(t.drop_last(), b).push(t.last());
            assert(s.drop_last() =~= select(t.drop_last(), b));
            assert(((b & u) | m) == (b & (u | m))) by (bit_vector)
                requires
                    (b & m) != 0,
                    single_bit(m),
            ;
        } else {
            assert((b & u) == (b & (u | m))) by (bit_vector)
                requires
                    (b & m) == 0,
            ;
        }
    }
}

proof fn lemma_mask_covers<F: AccessFlag>(t: Seq<F>, i: int)
    requires
        0 <= i < t.len(),
    ensures
        t[i].spec_mask() & mask_of(t) == t[i].spec_mask(),
    decreases t.len(),
{
    let m = t[i].spec_mask();
    let u = mask_of(t.drop_last());
    let l = t.last().spec_mask();
    if i == t.len() - 1 {
        assert((m & (u | m)) == m) by (bit_vector);
    } else {
        lemma_mask_covers(t.drop_last(), i);
        assert((m & u) == m ==> (m & (u | l)) == m) by (bit_vector);
    }
}

proof fn lemma_select_agree<F: AccessFlag>(t: Seq<F>, b1: u16, b2: u16)
    requires
        forall|i: int| 0 <= i < t.len() ==> ((b1 & #[trigger] t[i].spec_mask()) != 0) == ((b2 & t[i].spec_mask()) != 0),
    ensures
        select(t, b1) == select(t, b2),
    decreases t.len(),
{
    if t.len() > 0 {
        assert(t.last() == t[t.len() - 1]);
        assert forall|i: int| 0 <= i < t.drop_last().len() implies ((b1 & #[trigger] t.drop_last()[i].spec_mask()) != 0) == ((b2 & t.drop_last()[i].spec_mask()) != 0) by {
            assert(t.drop_last()[i] == t[i]);
        }
        lemma_select_agree(t.drop_last(), b1, b2);
    }
}

/// Encoding the modifiers that a flags word holds and decoding the result
/// gives the same modifiers.
pub proof fn lemma_flags_round_trip<F: AccessFlag>(bits: u16)
    ensures
        flags_of::<F>(mask_of(flags_of::<F>(bits))) == flags_of::<F>(bits),
{
    let t = F::spec_all();
    lemma_select_mask(t, bits);
    let u = mask_of(t);
    assert forall|i: int| 0 <= i < t.len() implies ((bits & u & #[trigger] t[i].spec_mask()) != 0) == ((bits & t[i].spec_mask()) != 0) by {
        lemma_mask_covers(t, i);
        let m = t[i].spec_mask();
        assert((m & u) == m ==> (bits & u & m) == (bits & m)) by (bit_vector);
    }
    lemma_select_agree(t, bits & u, bits);
}

/// Access modifiers of a class.
#[derive(Debug, Clone, Copy, PartialEq, Eq, Structural)]
pub enum ClassAccessModifier {
    PUBLIC,
    FINAL,
    SUPER,
    INTERFACE,
    ABSTRACT,
    SYNTHETIC,
    ANNOTATION,
    ENUM,
    MODULE,
}

impl AccessFlag for ClassAccessModifier {
    open spec fn spec_mask(&self) -> u16 {
        match self {
            ClassAccessModifier::PUBLIC => 0x0001,
            ClassAccessModifier::FINAL => 0x0010,
            ClassAccessModifier::SUPER => 0x0020,
            ClassAccessModifier::INTERFACE => 0x0200,
            ClassAccessModifier::ABSTRACT => 0x0400,
            ClassAccessModifier::SYNTHETIC => 0x1000,
            ClassAccessModifier::ANNOTATION => 0x2000,
            ClassAccessModifier::ENUM => 0x4000,
            ClassAccessModifier::MODULE => 0x8000,
        }
    }

    open spec fn spec_all() -> Seq<Self> {
        seq![
            ClassAccessModifier::PUBLIC,
            ClassAccessModifier::FINAL,
            ClassAccessModifier::SUPER,
            ClassAccessModifier::INTERFACE,
            ClassAccessModifier::ABSTRACT,
            ClassAccessModifier::SYNTHETIC,
            ClassAccessModifier::ANNOTATION,
            ClassAccessModifier::ENUM,
            ClassAccessModifier::MODULE,
        ]
    }

    fn mask(&self) -> (r: u16) {
        match self {
            ClassAccessModifier::PUBLIC => 0x0001,
            ClassAccessModifier::FINAL => 0x0010,
            ClassAccessModifier::SUPER => 0x0020,
            ClassAccessModifier::INTERFACE => 0x0200,
            ClassAccessModifier::ABSTRACT => 0x0400,
            ClassAccessModifier::SYNTHETIC => 0x1000,
            ClassAccessModifier::ANNOTATION => 0x2000,
            ClassAccessModifier::ENUM => 0x4000,
            ClassAccessModifier::MODULE => 0x8000,
        }
    }

    fn variants() -> (r: Vec<Self>) {
        let r = vec![
            ClassAccessModifier::PUBLIC,
            ClassAccessModifier::FINAL,
            ClassAccessModifier::SUPER,
            ClassAccessModifier::INTERFACE,
            ClassAccessModifier::ABSTRACT,
            ClassAccessModifier::SYNTHETIC,
            ClassAccessModifier::ANNOTATION,
            ClassAccessModifier::ENUM,
            ClassAccessModifier::MODULE,
        ];
        assert(r@ =~= Self::spec_all());
        r
    }

    proof fn lemma_single_bits() {
    }
}

/// Access modifiers of a field.
#[derive(Debug, Clone, Copy, PartialEq, Eq, Structural)]
pub enum FieldAccessModifier {
    PUBLIC,
    PRIVATE,
    PROTECTED,
    STATIC,
    FINAL,
    VOLATILE,
    TRANSIENT,
    SYNTHETIC,
    ENUM,
}

impl AccessFlag for FieldAccessModifier {
    open spec fn spec_mask(&self) -> u16 {
        match self {
            FieldAccessModifier::PUBLIC => 0x0001,
            FieldAccessModifier::PRIVATE => 0x0002,
            FieldAccessModifier::PROTECTED => 0x0004,
            FieldAccessModifier::STATIC => 0x0008,
            FieldAccessModifier::FINAL => 0x0010,
            FieldAccessModifier::VOLATILE => 0x0040,
            FieldAccessModifier::TRANSIENT => 0x0080,
            FieldAccessModifier::SYNTHETIC => 0x1000,
            FieldAccessModifier::ENUM => 0x4000,
        }
    }

    open spec fn spec_all() -> Seq<Self> {
        seq![
            FieldAccessModifier::PUBLIC,
            FieldAccessModifier::PRIVATE,
            FieldAccessModifier::PROTECTED,
            FieldAccessModifier::STATIC,
            FieldAccessModifier::FINAL,
            FieldAccessModifier::VOLATILE,
            FieldAccessModifier::TRANSIENT,
            FieldAccessModifier::SYNTHETIC,
            FieldAccessModifier::ENUM,
        ]
    }

    fn mask(&self) -> (r: u16) {
        match self {
            FieldAccessModifier::PUBLIC => 0x0001,
            FieldAccessModifier::PRIVATE => 0x0002,
            FieldAccessModifier::PROTECTED => 0x0004,
            FieldAccessModifier::STATIC => 0x0008,
            FieldAccessModifier::FINAL => 0x0010,
            FieldAccessModifier::VOLATILE => 0x0040,
            FieldAccessModifier::TRANSIENT => 0x0080,
            FieldAccessModifier::SYNTHETIC => 0x1000,
            FieldAccessModifier::ENUM => 0x4000,
        }
    }

    fn variants() -> (r: Vec<Self>) {
        let r = vec![
            FieldAccessModifier::PUBLIC,
            FieldAccessModifier::PRIVATE,
            FieldAccessModifier::PROTECTED,
            FieldAccessModifier::STATIC,
            FieldAccessModifier::FINAL,
            FieldAccessModifier::VOLATILE,
            FieldAccessModifier::TRANSIENT,
            FieldAccessModifier::SYNTHETIC,
            FieldAccessModifier::ENUM,
        ];
        assert(r@ =~= Self::spec_all());
        r
    }

    proof fn lemma_single_bits() {
    }
}

/// Access modifiers of a method.
#[derive(Debug, Clone, Copy, PartialEq, Eq, Structural)]
pub enum MethodAccessModifier {
    PUBLIC,
    PRIVATE,
    PROTECTED,
    STATIC,
    FINAL,
    SYNCHRONIZED,
    BRIDGE,
    VARARGS,
    NATIVE,
    ABSTRACT,
    STRICT,
    SYNTHETIC,
}

impl AccessFlag for MethodAccessModifier {
    open spec fn spec_mask(&self) -> u16 {
        match self {
            MethodAccessModifier::PUBLIC => 0x0001,
            MethodAccessModifier::PRIVATE => 0x0002,
            MethodAccessModifier::PROTECTED => 0x0004,
            MethodAccessModifier::STATIC => 0x0008,
            MethodAccessModifier::FINAL => 0x0010,
            MethodAccessModifier::SYNCHRONIZED => 0x0020,
            MethodAccessModifier::BRIDGE => 0x0040,
            MethodAccessModifier::VARARGS => 0x0080,
            MethodAccessModifier::NATIVE => 0x0100,
            MethodAccessModifier::ABSTRACT => 0x0400,
            MethodAccessModifier::STRICT => 0x0800,
            MethodAccessModifier::SYNTHETIC => 0x1000,
        }
    }

    open spec fn spec_all() -> Seq<Self> {
        seq![
            MethodAccessModifier::PUBLIC,
            MethodAccessModifier::PRIVATE,
            MethodAccessModifier::PROTECTED,
            MethodAccessModifier::STATIC,
            MethodAccessModifier::FINAL,
            MethodAccessModifier::SYNCHRONIZED,
            MethodAccessModifier::BRIDGE,
            MethodAccessModifier::VARARGS,
            MethodAccessModifier::NATIVE,
            MethodAccessModifier::ABSTRACT,
            MethodAccessModifier::STRICT,
            MethodAccessModifier::SYNTHETIC,
        ]
    }

    fn mask(&self) -> (r: u16) {
        match self {
            MethodAccessModifier::PUBLIC => 0x0001,
            MethodAccessModifier::PRIVATE => 0x0002,
            MethodAccessModifier::PROTECTED => 0x0004,
            MethodAccessModifier::STATIC => 0x0008,
            MethodAccessModifier::FINAL => 0x0010,
            MethodAccessModifier::SYNCHRONIZED => 0x0020,
            MethodAccessModifier::BRIDGE => 0x0040,
            MethodAccessModifier::VARARGS => 0x0080,
            MethodAccessModifier::NATIVE => 0x0100,
            MethodAccessModifier::ABSTRACT => 0x0400,
            MethodAccessModifier::STRICT => 0x0800,
            MethodAccessModifier::SYNTHETIC => 0x1000,
        }
    }

    fn variants() -> (r: Vec<Self>) {
        let r = vec![
            MethodAccessModifier::PUBLIC,
            MethodAccessModifier::PRIVATE,
            MethodAccessModifier::PROTECTED,
            MethodAccessModifier::STATIC,
            MethodAccessModifier::FINAL,
            MethodAccessModifier::SYNCHRONIZED,
            MethodAccessModifier::BRIDGE,
            MethodAccessModifier::VARARGS,
            MethodAccessModifier::NATIVE,
            MethodAccessModifier::ABSTRACT,
            MethodAccessModifier::STRICT,
            MethodAccessModifier::SYNTHETIC,
        ];
        assert(r@ =~= Self::spec_all());
        r
    }

    proof fn lemma_single_bits() {
    }
}

/// Access modifiers of a method parameter.
#[derive(Debug, Clone, Copy, PartialEq, Eq, Structural)]
pub enum MethodParameterAccessFlags {
    FINAL,
    SYNTHETIC,
    MANDATED,
}

impl AccessFlag for MethodParameterAccessFlags {
    open spec fn spec_mask(&self) -> u16 {
        match self {
            MethodParameterAccessFlags::FINAL => 0x0010,
            MethodParameterAccessFlags::SYNTHETIC => 0x1000,
            MethodParameterAccessFlags::MANDATED => 0x8000,
        }
    }

    open spec fn spec_all() -> Seq<Self> {
        seq![
            MethodParameterAccessFlags::FINAL,
            MethodParameterAccessFlags::SYNTHETIC,
            MethodParameterAccessFlags::MANDATED,
        ]
    }

    fn mask(&self) -> (r: u16) {
        match self {
            MethodParameterAccessFlags::FINAL => 0x0010,
            MethodParameterAccessFlags::SYNTHETIC => 0x1000,
            MethodParameterAccessFlags::MANDATED => 0x8000,
        }
    }

    fn variants() -> (r: Vec<Self>) {
        let r = vec![
            MethodParameterAccessFlags::FINAL,
            MethodParameterAccessFlags::SYNTHETIC,
            MethodParameterAccessFlags::MANDATED,
        ];
        assert(r@ =~= Self::spec_all());
        r
    }

    proof fn lemma_single_bits() {
    }
}

} // verus!
