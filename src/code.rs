use vstd::prelude::*;
use crate::constant_pool::{
    pushed, text_fits, texts_fit,    lemma_extends_refl,
    ConstantPool, Cp, CpInfo, CpTag, class_name_at, extends, lemma_extends_pushed,
    lemma_extends_trans, lemma_lookups_stable, lemma_parse_two_u16, lemma_parse_u16,
    lemma_parse_u32, member_ref_at, parse_two_u16,
};
use crate::error::{Error, view_result};
use crate::list::{flatten, lemma_flatten_push};
use crate::reader::{ByteReader, outcome, parse_u16, parse_u32, parse_u8};
use crate::writer::{ByteWriter, bytes16, bytes32};

verus! {

/// `nop`
pub const NOP: u8 = 0x00;

/// `aconst_null`
pub const ACONST_NULL: u8 = 0x01;

/// `iconst_m1`
pub const ICONST_M1: u8 = 0x02;

/// `iconst_0`
pub const ICONST_0: u8 = 0x03;

/// `iconst_1`
pub const ICONST_1: u8 = 0x04;

/// `iconst_2`
pub const ICONST_2: u8 = 0x05;

/// `iconst_3`
pub const ICONST_3: u8 = 0x06;

/// `iconst_4`
pub const ICONST_4: u8 = 0x07;

/// `iconst_5`
pub const ICONST_5: u8 = 0x08;

/// `lconst_0`
pub const LCONST_0: u8 = 0x09;

/// `lconst_1`
pub const LCONST_1: u8 = 0x0a;

/// `fconst_0`
pub const FCONST_0: u8 = 0x0b;

/// `fconst_1`
pub const FCONST_1: u8 = 0x0c;

/// `fconst_2`
pub const FCONST_2: u8 = 0x0d;

/// `dconst_0`
pub const DCONST_0: u8 = 0x0e;

/// `dconst_1`
pub const DCONST_1: u8 = 0x0f;

/// `bipush`
pub const BIPUSH: u8 = 0x10;

/// `sipush`
pub const SIPUSH: u8 = 0x11;

/// `ldc`
pub const LDC: u8 = 0x12;

/// `ldc_w`
pub const LDC_W: u8 = 0x13;

/// `ldc2_w`
pub const LDC2_W: u8 = 0x14;

/// `iload`
pub const ILOAD: u8 = 0x15;

/// `lload`
pub const LLOAD: u8 = 0x16;

/// `fload`
pub const FLOAD: u8 = 0x17;

/// `dload`
pub const DLOAD: u8 = 0x18;

/// `aload`
pub const ALOAD: u8 = 0x19;

/// `iload_0`
pub const ILOAD_0: u8 = 0x1a;

/// `iload_1`
pub const ILOAD_1: u8 = 0x1b;

/// `iload_2`
pub const ILOAD_2: u8 = 0x1c;

/// `iload_3`
pub const ILOAD_3: u8 = 0x1d;

/// `lload_0`
pub const LLOAD_0: u8 = 0x1e;

/// `lload_1`
pub const LLOAD_1: u8 = 0x1f;

/// `lload_2`
pub const LLOAD_2: u8 = 0x20;

/// `lload_3`
pub const LLOAD_3: u8 = 0x21;

/// `fload_0`
pub const FLOAD_0: u8 = 0x22;

/// `fload_1`
pub const FLOAD_1: u8 = 0x23;

/// `fload_2`
pub const FLOAD_2: u8 = 0x24;

/// `fload_3`
pub const FLOAD_3: u8 = 0x25;

/// `dload_0`
pub const DLOAD_0: u8 = 0x26;

/// `dload_1`
pub const DLOAD_1: u8 = 0x27;

/// `dload_2`
pub const DLOAD_2: u8 = 0x28;

/// `dload_3`
pub const DLOAD_3: u8 = 0x29;

/// `aload_0`
pub const ALOAD_0: u8 = 0x2a;

/// `aload_1`
pub const ALOAD_1: u8 = 0x2b;

/// `aload_2`
pub const ALOAD_2: u8 = 0x2c;

/// `aload_3`
pub const ALOAD_3: u8 = 0x2d;

/// `iaload`
pub const IALOAD: u8 = 0x2e;

/// `laload`
pub const LALOAD: u8 = 0x2f;

/// `faload`
pub const FALOAD: u8 = 0x30;

/// `daload`
pub const DALOAD: u8 = 0x31;

/// `aaload`
pub const AALOAD: u8 = 0x32;

/// `baload`
pub const BALOAD: u8 = 0x33;

/// `caload`
pub const CALOAD: u8 = 0x34;

/// `saload`
pub const SALOAD: u8 = 0x35;

/// `istore`
pub const ISTORE: u8 = 0x36;

/// `lstore`
pub const LSTORE: u8 = 0x37;

/// `fstore`
pub const FSTORE: u8 = 0x38;

/// `dstore`
pub const DSTORE: u8 = 0x39;

/// `astore`
pub const ASTORE: u8 = 0x3a;

/// `istore_0`
pub const ISTORE_0: u8 = 0x3b;

/// `istore_1`
pub const ISTORE_1: u8 = 0x3c;

/// `istore_2`
pub const ISTORE_2: u8 = 0x3d;

/// `istore_3`
pub const ISTORE_3: u8 = 0x3e;

/// `lstore_0`
pub const LSTORE_0: u8 = 0x3f;

/// `lstore_1`
pub const LSTORE_1: u8 = 0x40;

/// `lstore_2`
pub const LSTORE_2: u8 = 0x41;

/// `lstore_3`
pub const LSTORE_3: u8 = 0x42;

/// `fstore_0`
pub const FSTORE_0: u8 = 0x43;

/// `fstore_1`
pub const FSTORE_1: u8 = 0x44;

/// `fstore_2`
pub const FSTORE_2: u8 = 0x45;

/// `fstore_3`
pub const FSTORE_3: u8 = 0x46;

/// `dstore_0`
pub const DSTORE_0: u8 = 0x47;

/// `dstore_1`
pub const DSTORE_1: u8 = 0x48;

/// `dstore_2`
pub const DSTORE_2: u8 = 0x49;

/// `dstore_3`
pub const DSTORE_3: u8 = 0x4a;

/// `astore_0`
pub const ASTORE_0: u8 = 0x4b;

/// `astore_1`
pub const ASTORE_1: u8 = 0x4c;

/// `astore_2`
pub const ASTORE_2: u8 = 0x4d;

/// `astore_3`
pub const ASTORE_3: u8 = 0x4e;

/// `iastore`
pub const IASTORE: u8 = 0x4f;

/// `lastore`
pub const LASTORE: u8 = 0x50;

/// `fastore`
pub const FASTORE: u8 = 0x51;

/// `dastore`
pub const DASTORE: u8 = 0x52;

/// `aastore`
pub const AASTORE: u8 = 0x53;

/// `bastore`
pub const BASTORE: u8 = 0x54;

/// `castore`
pub const CASTORE: u8 = 0x55;

/// `sastore`
pub const SASTORE: u8 = 0x56;

/// `pop`
pub const POP: u8 = 0x57;

/// `pop2`
pub const POP2: u8 = 0x58;

/// `dup`
pub const DUP: u8 = 0x59;

/// `dup_x1`
pub const DUP_X1: u8 = 0x5a;

/// `dup_x2`
pub const DUP_X2: u8 = 0x5b;

/// `dup2`
pub const DUP2: u8 = 0x5c;

/// `dup2_x1`
pub const DUP2_X1: u8 = 0x5d;

/// `dup2_x2`
pub const DUP2_X2: u8 = 0x5e;

/// `swap`
pub const SWAP: u8 = 0x5f;

/// `iadd`
pub const IADD: u8 = 0x60;

/// `ladd`
pub const LADD: u8 = 0x61;

/// `fadd`
pub const FADD: u8 = 0x62;

/// `dadd`
pub const DADD: u8 = 0x63;

/// `isub`
pub const ISUB: u8 = 0x64;

/// `lsub`
pub const LSUB: u8 = 0x65;

/// `fsub`
pub const FSUB: u8 = 0x66;

/// `dsub`
pub const DSUB: u8 = 0x67;

/// `imul`
pub const IMUL: u8 = 0x68;

/// `lmul`
pub const LMUL: u8 = 0x69;

/// `fmul`
pub const FMUL: u8 = 0x6a;

/// `dmul`
pub const DMUL: u8 = 0x6b;

/// `idiv`
pub const IDIV: u8 = 0x6c;

/// `ldiv`
pub const LDIV: u8 = 0x6d;

/// `fdiv`
pub const FDIV: u8 = 0x6e;

/// `ddiv`
pub const DDIV: u8 = 0x6f;

/// `irem`
pub const IREM: u8 = 0x70;

/// `lrem`
pub const LREM: u8 = 0x71;

/// `frem`
pub const FREM: u8 = 0x72;

/// `drem`
pub const DREM: u8 = 0x73;

/// `ineg`
pub const INEG: u8 = 0x74;

/// `lneg`
pub const LNEG: u8 = 0x75;

/// `fneg`
pub const FNEG: u8 = 0x76;

/// `dneg`
pub const DNEG: u8 = 0x77;

/// `ishl`
pub const ISHL: u8 = 0x78;

/// `lshl`
pub const LSHL: u8 = 0x79;

/// `ishr`
pub const ISHR: u8 = 0x7a;

/// `lshr`
pub const LSHR: u8 = 0x7b;

/// `iushr`
pub const IUSHR: u8 = 0x7c;

/// `lushr`
pub const LUSHR: u8 = 0x7d;

/// `iand`
pub const IAND: u8 = 0x7e;

/// `land`
pub const LAND: u8 = 0x7f;

/// `ior`
pub const IOR: u8 = 0x80;

/// `lor`
pub const LOR: u8 = 0x81;

/// `ixor`
pub const IXOR: u8 = 0x82;

/// `lxor`
pub const LXOR: u8 = 0x83;

/// `iinc`
pub const IINC: u8 = 0x84;

/// `i2l`
pub const I2L: u8 = 0x85;

/// `i2f`
pub const I2F: u8 = 0x86;

/// `i2d`
pub const I2D: u8 = 0x87;

/// `l2i`
pub const L2I: u8 = 0x88;

/// `l2f`
pub const L2F: u8 = 0x89;

/// `l2d`
pub const L2D: u8 = 0x8a;

/// `f2i`
pub const F2I: u8 = 0x8b;

/// `f2l`
pub const F2L: u8 = 0x8c;

/// `f2d`
pub const F2D: u8 = 0x8d;

/// `d2i`
pub const D2I: u8 = 0x8e;

/// `d2l`
pub const D2L: u8 = 0x8f;

/// `d2f`
pub const D2F: u8 = 0x90;

/// `i2b`
pub const I2B: u8 = 0x91;

/// `i2c`
pub const I2C: u8 = 0x92;

/// `i2s`
pub const I2S: u8 = 0x93;

/// `lcmp`
pub const LCMP: u8 = 0x94;

/// `fcmpl`
pub const FCMPL: u8 = 0x95;

/// `fcmpg`
pub const FCMPG: u8 = 0x96;

/// `dcmpl`
pub const DCMPL: u8 = 0x97;

/// `dcmpg`
pub const DCMPG: u8 = 0x98;

/// `ifeq`
pub const IFEQ: u8 = 0x99;

/// `ifne`
pub const IFNE: u8 = 0x9a;

/// `iflt`
pub const IFLT: u8 = 0x9b;

/// `ifge`
pub const IFGE: u8 = 0x9c;

/// `ifgt`
pub const IFGT: u8 = 0x9d;

/// `ifle`
pub const IFLE: u8 = 0x9e;

/// `if_icmpeq`
pub const IF_ICMPEQ: u8 = 0x9f;

/// `if_icmpne`
pub const IF_ICMPNE: u8 = 0xa0;

/// `if_icmplt`
pub const IF_ICMPLT: u8 = 0xa1;

/// `if_icmpge`
pub const IF_ICMPGE: u8 = 0xa2;

/// `if_icmpgt`
pub const IF_ICMPGT: u8 = 0xa3;

/// `if_icmple`
pub const IF_ICMPLE: u8 = 0xa4;

/// `if_acmpeq`
pub const IF_ACMPEQ: u8 = 0xa5;

/// `if_acmpne`
pub const IF_ACMPNE: u8 = 0xa6;

/// `goto`
pub const GOTO: u8 = 0xa7;

/// `jsr`
pub const JSR: u8 = 0xa8;

/// `ret`
pub const RET: u8 = 0xa9;

/// `ireturn`
pub const IRETURN: u8 = 0xac;

/// `lreturn`
pub const LRETURN: u8 = 0xad;

/// `freturn`
pub const FRETURN: u8 = 0xae;

/// `dreturn`
pub const DRETURN: u8 = 0xaf;

/// `areturn`
pub const ARETURN: u8 = 0xb0;

/// `return`
pub const RETURN: u8 = 0xb1;

/// `getstatic`
pub const GETSTATIC: u8 = 0xb2;

/// `putstatic`
pub const PUTSTATIC: u8 = 0xb3;

/// `getfield`
pub const GETFIELD: u8 = 0xb4;

/// `putfield`
pub const PUTFIELD: u8 = 0xb5;

/// `invokevirtual`
pub const INVOKEVIRTUAL: u8 = 0xb6;

/// `invokespecial`
pub const INVOKESPECIAL: u8 = 0xb7;

/// `invokestatic`
pub const INVOKESTATIC: u8 = 0xb8;

/// `invokeinterface`
pub const INVOKEINTERFACE: u8 = 0xb9;

/// `invokedynamic`
pub const INVOKEDYNAMIC: u8 = 0xba;

/// `new`
pub const NEW: u8 = 0xbb;

/// `newarray`
pub const NEWARRAY: u8 = 0xbc;

/// `anewarray`
pub const ANEWARRAY: u8 = 0xbd;

/// `arraylength`
pub const ARRAYLENGTH: u8 = 0xbe;

/// `athrow`
pub const ATHROW: u8 = 0xbf;

/// `checkcast`
pub const CHECKCAST: u8 = 0xc0;

/// `instanceof`
pub const INSTANCEOF: u8 = 0xc1;

/// `monitorenter`
pub const MONITORENTER: u8 = 0xc2;

/// `monitorexit`
pub const MONITOREXIT: u8 = 0xc3;

/// `multianewarray`
pub const MULTIANEWARRAY: u8 = 0xc5;

/// `ifnull`
pub const IFNULL: u8 = 0xc6;

/// `ifnonnull`
pub const IFNONNULL: u8 = 0xc7;

/// `goto_w`
pub const GOTO_W: u8 = 0xc8;

/// `jsr_w`
pub const JSR_W: u8 = 0xc9;


/// The operands that an opcode takes.
#[derive(Debug, Clone, Copy, PartialEq, Eq, Structural)]
pub enum Shape {
    /// No operand.
    Plain,
    /// One byte.
    Byte,
    /// One `u16`.
    Short,
    /// One `u32`.
    Int,
    /// Two bytes (`iinc`).
    ByteByte,
    /// Two `u16` (`invokedynamic`).
    ShortShort,
    /// A class reference.
    Class,
    /// A class reference and a byte (`multianewarray`).
    ClassByte,
    /// A field reference.
    Field,
    /// A method reference.
    Method,
    /// An interface method reference and two bytes (`invokeinterface`).
    InterfaceMethod,
}

/// The operand shape of each supported opcode; `None` for the others
/// (`tableswitch`, `lookupswitch`, `wide` and the reserved bytes among them).
pub open spec fn spec_shape_of(op: u8) -> Option<Shape> {
    if op <= 0x0f {
        Some(Shape::Plain)
    } else if op == 0x10 || op == 0x12 {
        Some(Shape::Byte)
    } else if op == 0x11 || op == 0x13 || op == 0x14 {
        Some(Shape::Short)
    } else if 0x15 <= op <= 0x19 {
        Some(Shape::Byte)
    } else if 0x1a <= op <= 0x35 {
        Some(Shape::Plain)
    } else if 0x36 <= op <= 0x3a {
        Some(Shape::Byte)
    } else if 0x3b <= op <= 0x83 {
        Some(Shape::Plain)
    } else if op == 0x84 {
        Some(Shape::ByteByte)
    } else if 0x85 <= op <= 0x98 {
        Some(Shape::Plain)
    } else if 0x99 <= op <= 0xa8 {
        Some(Shape::Short)
    } else if op == 0xa9 {
        Some(Shape::Byte)
    } else if 0xac <= op <= 0xb1 {
        Some(Shape::Plain)
    } else if 0xb2 <= op <= 0xb5 {
        Some(Shape::Field)
    } else if 0xb6 <= op <= 0xb8 {
        Some(Shape::Method)
    } else if op == 0xb9 {
        Some(Shape::InterfaceMethod)
    } else if op == 0xba {
        Some(Shape::ShortShort)
    } else if op == 0xbb || op == 0xbd || op == 0xc0 || op == 0xc1 {
        Some(Shape::Class)
    } else if op == 0xbc {
        Some(Shape::Byte)
    } else if op == 0xbe || op == 0xbf || op == 0xc2 || op == 0xc3 {
        Some(Shape::Plain)
    } else if op == 0xc5 {
        Some(Shape::ClassByte)
    } else if op == 0xc6 || op == 0xc7 {
        Some(Shape::Short)
    } else if op == 0xc8 || op == 0xc9 {
        Some(Shape::Int)
    } else {
        None
    }
}

/// The operand shape of `op`, or `None` where the opcode is not supported.
pub fn shape_of(op: u8) -> (r: Option<Shape>)
    ensures
        r == spec_shape_of(op),
{
    if op <= 0x0f {
        Some(Shape::Plain)
    } else if op == 0x10 || op == 0x12 {
        Some(Shape::Byte)
    } else if op == 0x11 || op == 0x13 || op == 0x14 {
        Some(Shape::Short)
    } else if 0x15 <= op && op <= 0x19 {
        Some(Shape::Byte)
    } else if 0x1a <= op && op <= 0x35 {
        Some(Shape::Plain)
    } else if 0x36 <= op && op <= 0x3a {
        Some(Shape::Byte)
    } else if 0x3b <= op && op <= 0x83 {
        Some(Shape::Plain)
    } else if op == 0x84 {
        Some(Shape::ByteByte)
    } else if 0x85 <= op && op <= 0x98 {
        Some(Shape::Plain)
    } else if 0x99 <= op && op <= 0xa8 {
        Some(Shape::Short)
    } else if op == 0xa9 {
        Some(Shape::Byte)
    } else if 0xac <= op && op <= 0xb1 {
        Some(Shape::Plain)
    } else if 0xb2 <= op && op <= 0xb5 {
        Some(Shape::Field)
    } else if 0xb6 <= op && op <= 0xb8 {
        Some(Shape::Method)
    } else if op == 0xb9 {
        Some(Shape::InterfaceMethod)
    } else if op == 0xba {
        Some(Shape::ShortShort)
    } else if op == 0xbb || op == 0xbd || op == 0xc0 || op == 0xc1 {
        Some(Shape::Class)
    } else if op == 0xbc {
        Some(Shape::Byte)
    } else if op == 0xbe || op == 0xbf || op == 0xc2 || op == 0xc3 {
        Some(Shape::Plain)
    } else if op == 0xc5 {
        Some(Shape::ClassByte)
    } else if op == 0xc6 || op == 0xc7 {
        Some(Shape::Short)
    } else if op == 0xc8 || op == 0xc9 {
        Some(Shape::Int)
    } else {
        None
    }
}

/// How many bytes the operands of a shape take.
pub open spec fn shape_len(sh: Shape) -> nat {
    match sh {
        Shape::Plain => 0,
        Shape::Byte => 1,
        Shape::Short => 2,
        Shape::Int => 4,
        Shape::ByteByte => 2,
        Shape::ShortShort => 4,
        Shape::Class => 2,
        Shape::ClassByte => 3,
        Shape::Field => 2,
        Shape::Method => 2,
        Shape::InterfaceMethod => 4,
    }
}

/// How many pool slots interning a shape's references takes.
pub open spec fn shape_need(sh: Shape) -> nat {
    match sh {
        Shape::Class | Shape::ClassByte => 2,
        Shape::Field | Shape::Method | Shape::InterfaceMethod => 6,
        _ => 0,
    }
}

/// A class, a member name and a descriptor.
pub type RefV = (Seq<char>, Seq<char>, Seq<char>);

/// The value of an instruction's operands, with pool references resolved.
pub enum OperandsV {
    Plain,
    Byte(u8),
    Short(u16),
    Int(u32),
    ByteByte(u8, u8),
    ShortShort(u16, u16),
    Class(Seq<char>),
    ClassByte(Seq<char>, u8),
    Field(RefV),
    Method(RefV),
    InterfaceMethod(RefV, u8, u8),
}

/// The value of an instruction.
pub struct InstructionV {
    pub opcode: u8,
    pub operands: OperandsV,
}

pub open spec fn operands_shape(o: OperandsV) -> Shape {
    match o {
        OperandsV::Plain => Shape::Plain,
        OperandsV::Byte(..) => Shape::Byte,
        OperandsV::Short(..) => Shape::Short,
        OperandsV::Int(..) => Shape::Int,
        OperandsV::ByteByte(..) => Shape::ByteByte,
        OperandsV::ShortShort(..) => Shape::ShortShort,
        OperandsV::Class(..) => Shape::Class,
        OperandsV::ClassByte(..) => Shape::ClassByte,
        OperandsV::Field(..) => Shape::Field,
        OperandsV::Method(..) => Shape::Method,
        OperandsV::InterfaceMethod(..) => Shape::InterfaceMethod,
    }
}

/// The opcode is supported and the operands have its shape.
pub open spec fn instruction_wf(i: InstructionV) -> bool {
    spec_shape_of(i.opcode) == Some(operands_shape(i.operands))
}

/// How many bytes an instruction takes: its opcode and its operands.
pub open spec fn instruction_len(i: InstructionV) -> nat {
    1 + shape_len(operands_shape(i.operands))
}

/// The summed lengths of a run of instructions.
pub open spec fn code_len(is: Seq<InstructionV>) -> nat
    decreases is.len(),
{
    if is.len() == 0 {
        0
    } else {
        instruction_len(is[0]) + code_len(is.drop_first())
    }
}

/// Reads a class reference: a pool index of a `Class` constant.
pub open spec fn decode_class_ref(s: Seq<u8>, p: Seq<Option<Cp>>) -> Result<(Seq<char>, Seq<u8>), Error> {
    match parse_u16(s) {
        Err(e) => Err(e),
        Ok((i, s1)) => match class_name_at(p, i) {
            Err(e) => Err(e),
            Ok(n) => Ok((n, s1)),
        },
    }
}

/// Reads a member reference of kind `kind`: a pool index of a `Fieldref`,
/// `Methodref` or `InterfaceMethodref` constant.
pub open spec fn decode_member_ref(s: Seq<u8>, p: Seq<Option<Cp>>, kind: CpTag) -> Result<(RefV, Seq<u8>), Error> {
    match parse_u16(s) {
        Err(e) => Err(e),
        Ok((i, s1)) => match member_ref_at(p, i, kind) {
            Err(e) => Err(e),
            Ok(r) => Ok((r, s1)),
        },
    }
}

pub open spec fn parse_two_u8(s: Seq<u8>) -> Result<((u8, u8), Seq<u8>), Error> {
    match parse_u8(s) {
        Err(e) => Err(e),
        Ok((a, s1)) => match parse_u8(s1) {
            Err(e) => Err(e),
            Ok((b, s2)) => Ok(((a, b), s2)),
        },
    }
}

/// Reads operands of shape `sh`, resolving pool references through `p`.
pub open spec fn decode_operands(sh: Shape, s: Seq<u8>, p: Seq<Option<Cp>>) -> Result<(OperandsV, Seq<u8>), Error> {
    match sh {
        Shape::Plain => Ok((OperandsV::Plain, s)),
        Shape::Byte => match parse_u8(s) {
            Err(e) => Err(e),
            Ok((a, s1)) => Ok((OperandsV::Byte(a), s1)),
        },
        Shape::Short => match parse_u16(s) {
            Err(e) => Err(e),
            Ok((a, s1)) => Ok((OperandsV::Short(a), s1)),
        },
        Shape::Int => match parse_u32(s) {
            Err(e) => Err(e),
            Ok((a, s1)) => Ok((OperandsV::Int(a), s1)),
        },
        Shape::ByteByte => match parse_two_u8(s) {
            Err(e) => Err(e),
            Ok(((a, b), s1)) => Ok((OperandsV::ByteByte(a, b), s1)),
        },
        Shape::ShortShort => match parse_two_u16(s) {
            Err(e) => Err(e),
            Ok(((a, b), s1)) => Ok((OperandsV::ShortShort(a, b), s1)),
        },
        Shape::Class => match decode_class_ref(s, p) {
            Err(e) => Err(e),
            Ok((c, s1)) => Ok((OperandsV::Class(c), s1)),
        },
        Shape::ClassByte => match decode_class_ref(s, p) {
            Err(e) => Err(e),
            Ok((c, s1)) => match parse_u8(s1) {
                Err(e) => Err(e),
                Ok((d, s2)) => Ok((OperandsV::ClassByte(c, d), s2)),
            },
        },
        Shape::Field => match decode_member_ref(s, p, CpTag::Fieldref) {
            Err(e) => Err(e),
            Ok((r, s1)) => Ok((OperandsV::Field(r), s1)),
        },
        Shape::Method => match decode_member_ref(s, p, CpTag::Methodref) {
            Err(e) => Err(e),
            Ok((r, s1)) => Ok((OperandsV::Method(r), s1)),
        },
        Shape::InterfaceMethod => match decode_member_ref(s, p, CpTag::InterfaceMethodref) {
            Err(e) => Err(e),
            Ok((r, s1)) => match parse_two_u8(s1) {
                Err(e) => Err(e),
                Ok(((c, z), s2)) => Ok((OperandsV::InterfaceMethod(r, c, z), s2)),
            },
        },
    }
}

/// Reads one instruction: its opcode, then the operands of its shape.
pub open spec fn decode_instruction(s: Seq<u8>, p: Seq<Option<Cp>>) -> Result<(InstructionV, Seq<u8>), Error> {
    match parse_u8(s) {
        Err(e) => Err(e),
        Ok((op, s1)) => match spec_shape_of(op) {
            None => Err(Error::UnknownOpcode { value: op }),
            Some(sh) => match decode_operands(sh, s1, p) {
                Err(e) => Err(e),
                Ok((o, s2)) => Ok((InstructionV { opcode: op, operands: o }, s2)),
            },
        },
    }
}

/// Reads instructions until `s` is used up.
pub open spec fn decode_code(s: Seq<u8>, p: Seq<Option<Cp>>) -> Result<Seq<InstructionV>, Error>
    decreases s.len(),
{
    if s.len() == 0 {
        Ok(Seq::empty())
    } else {
        match decode_instruction(s, p) {
            Err(e) => Err(e),
            Ok((i, rest)) => if rest.len() < s.len() {
                match decode_code(rest, p) {
                    Err(e) => Err(e),
                    Ok(is) => Ok(seq![i] + is),
                }
            } else {
                Err(Error::Malformed)
            },
        }
    }
}

proof fn lemma_decode_operands_len(sh: Shape, s: Seq<u8>, p: Seq<Option<Cp>>)
    ensures
        decode_operands(sh, s, p) matches Ok((o, rest)) ==> operands_shape(o) == sh && s.len()
            == shape_len(sh) + rest.len(),
{
}

proof fn lemma_decode_instruction_len(s: Seq<u8>, p: Seq<Option<Cp>>)
    ensures
        decode_instruction(s, p) matches Ok((i, rest)) ==> s.len() == instruction_len(i) + rest.len()
            && instruction_wf(i),
{
    if let Ok((op, s1)) = parse_u8(s) {
        if let Some(sh) = spec_shape_of(op) {
            lemma_decode_operands_len(sh, s1, p);
        }
    }
}

/// For every decoded instruction stream, the encoded lengths of its
/// instructions add up to the length of the code.
pub proof fn lemma_code_length(s: Seq<u8>, p: Seq<Option<Cp>>)
    ensures
        decode_code(s, p) matches Ok(is) ==> code_len(is) == s.len(),
    decreases s.len(),
{
    if s.len() > 0 {
        lemma_decode_instruction_len(s, p);
        if let Ok((i, rest)) = decode_instruction(s, p) {
            if rest.len() < s.len() {
                lemma_code_length(rest, p);
                if let Ok(is) = decode_code(rest, p) {
                    assert((seq![i] + is).drop_first() =~= is);
                }
            }
        }
    }
}


/// The bytes of an instruction encode `i` against every pool that extends `p`.
pub open spec fn encodes_instruction(b: Seq<u8>, i: InstructionV, p: Seq<Option<Cp>>) -> bool {
    forall|q: Seq<Option<Cp>>, rest: Seq<u8>|
        extends(q, p) ==> #[trigger] decode_instruction(b + rest, q) == Ok::<
            (InstructionV, Seq<u8>),
            Error,
        >((i, rest))
}

/// Every text of a member reference fits a `Utf8` constant.
pub open spec fn ref_texts(r: RefV) -> bool {
    text_fits(r.0) && text_fits(r.1) && text_fits(r.2)
}

/// Every text that encoding the operands interns fits a `Utf8` constant.
pub open spec fn operands_texts(o: OperandsV) -> bool {
    match o {
        OperandsV::Class(c) => text_fits(c),
        OperandsV::ClassByte(c, _) => text_fits(c),
        OperandsV::Field(r) => ref_texts(r),
        OperandsV::Method(r) => ref_texts(r),
        OperandsV::InterfaceMethod(r, _, _) => ref_texts(r),
        _ => true,
    }
}

/// Every text that encoding the instructions interns fits a `Utf8` constant.
pub open spec fn code_texts(is: Seq<InstructionV>) -> bool {
    forall|k: int| 0 <= k < is.len() ==> operands_texts(#[trigger] is[k].operands)
}

proof fn lemma_code_texts_push(is: Seq<InstructionV>, k: int)
    requires
        0 <= k < is.len(),
    ensures
        code_texts(is.take(k + 1)) == (code_texts(is.take(k)) && operands_texts(is[k].operands)),
{
    let a = is.take(k);
    let b = is.take(k + 1);
    assert(b[k] == is[k]);
    if code_texts(a) && operands_texts(is[k].operands) {
        assert forall|j: int| 0 <= j < b.len() implies operands_texts(#[trigger] b[j].operands) by {
            if j < k {
                assert(b[j] == a[j]);
            }
        }
    }
    if code_texts(b) {
        assert forall|j: int| 0 <= j < a.len() implies operands_texts(#[trigger] a[j].operands) by {
            assert(b[j] == a[j]);
        }
        assert(operands_texts(b[k].operands));
    }
}

/// A class named by its internal name.
#[derive(Debug, Clone, PartialEq, Eq)]
pub struct ClassRef(pub String);

/// A field: its class, name and descriptor.
#[derive(Debug, Clone, PartialEq, Eq)]
pub struct FieldRef {
    pub class: ClassRef,
    pub name: String,
    pub descriptor: String,
}

/// A method of a class: its class, name and descriptor.
#[derive(Debug, Clone, PartialEq, Eq)]
pub struct MethodRef {
    pub class: ClassRef,
    pub name: String,
    pub descriptor: String,
}

/// A method of an interface: its interface, name and descriptor.
#[derive(Debug, Clone, PartialEq, Eq)]
pub struct InterfaceMethodRef {
    pub class: ClassRef,
    pub name: String,
    pub descriptor: String,
}

impl View for ClassRef {
    type V = Seq<char>;

    open spec fn view(&self) -> Seq<char> {
        self.0@
    }
}

impl View for FieldRef {
    type V = RefV;

    open spec fn view(&self) -> RefV {
        (self.class@, self.name@, self.descriptor@)
    }
}

impl View for MethodRef {
    type V = RefV;

    open spec fn view(&self) -> RefV {
        (self.class@, self.name@, self.descriptor@)
    }
}

impl View for InterfaceMethodRef {
    type V = RefV;

    open spec fn view(&self) -> RefV {
        (self.class@, self.name@, self.descriptor@)
    }
}

/// The operands of an instruction; pool indices of classes, fields and
/// methods appear resolved.
#[derive(Debug, Clone, PartialEq, Eq)]
pub enum Operands {
    Plain,
    Byte(u8),
    Short(u16),
    Int(u32),
    ByteByte(u8, u8),
    ShortShort(u16, u16),
    Class(ClassRef),
    ClassByte(ClassRef, u8),
    Field(FieldRef),
    Method(MethodRef),
    InterfaceMethod(InterfaceMethodRef, u8, u8),
}

impl View for Operands {
    type V = OperandsV;

    open spec fn view(&self) -> OperandsV {
        match self {
            Operands::Plain => OperandsV::Plain,
            Operands::Byte(a) => OperandsV::Byte(*a),
            Operands::Short(a) => OperandsV::Short(*a),
            Operands::Int(a) => OperandsV::Int(*a),
            Operands::ByteByte(a, b) => OperandsV::ByteByte(*a, *b),
            Operands::ShortShort(a, b) => OperandsV::ShortShort(*a, *b),
            Operands::Class(c) => OperandsV::Class(c@),
            Operands::ClassByte(c, d) => OperandsV::ClassByte(c@, *d),
            Operands::Field(f) => OperandsV::Field(f@),
            Operands::Method(m) => OperandsV::Method(m@),
            Operands::InterfaceMethod(m, c, z) => OperandsV::InterfaceMethod(m@, *c, *z),
        }
    }
}

/// One instruction: its opcode byte and its operands.
#[derive(Debug, Clone, PartialEq, Eq)]
pub struct Instruction {
    pub opcode: u8,
    pub operands: Operands,
}

impl View for Instruction {
    type V = InstructionV;

    open spec fn view(&self) -> InstructionV {
        InstructionV { opcode: self.opcode, operands: self.operands@ }
    }
}

/// The values of a run of instructions.
pub open spec fn instructions_view(v: Seq<Instruction>) -> Seq<InstructionV> {
    v.map_values(|i: Instruction| i@)
}

impl ClassRef {
    /// Reads a pool index and resolves it to a class name.
    pub fn decode(reader: &mut ByteReader, pool: &ConstantPool) -> (r: Result<ClassRef, Error>)
        ensures
            outcome(decode_class_ref(old(reader)@, pool@), view_result(r), final(reader)@),
    {
        let index = reader.take_u16()?;
        let name = pool.get_class_name(index)?;
        Ok(ClassRef(name))
    }

    /// Interns the name as `Utf8` then `Class` and returns the `Class` index.
    pub fn encode(&self, pool: &mut ConstantPool) -> (r: Result<u16, Error>)
        ensures
            r is Ok ==> (crate::constant_pool::linked(old(pool)@) ==> crate::constant_pool::linked(final(pool)@)),
            r is Ok <==> old(pool)@.len() + 2 <= 0xFFFF,
            match r {
                Ok(i) => extends(final(pool)@, old(pool)@) && final(pool)@.len() == old(pool)@.len() + 2
                    && class_name_at(final(pool)@, i) == Ok::<Seq<char>, Error>(self@)
                    && i as int == old(pool)@.len() + 1
                    && final(pool)@ == pushed(pushed(old(pool)@, Cp::Utf8(self@)), Cp::Class((i - 1) as u16))
                    && texts_fit(final(pool)@) == (texts_fit(old(pool)@) && text_fits(self@)),
                Err(e) => e == Error::TooLarge && final(pool)@ == old(pool)@,
            },
    {
        if pool.len() as usize + 2 > 0xFFFF {
            return Err(Error::TooLarge);
        }
        let ghost at0 = pool@;
        let name_index = match pool.push(CpInfo::Utf8 { string: self.0.clone() }) {
            Ok(i) => i,
            Err(e) => return Err(e),
        };
        let ghost at1 = pool@;
        let class_index = match pool.push(CpInfo::Class { name_index }) {
            Ok(i) => i,
            Err(e) => return Err(e),
        };
        proof {
            lemma_extends_pushed(at0, Cp::Utf8(self@));
            lemma_extends_pushed(at1, Cp::Class(name_index));
            lemma_extends_trans(at0, at1, pool@);
        }
        Ok(class_index)
    }
}

/// Reads a pool index and resolves it to a member reference of kind `kind`.
fn decode_member(reader: &mut ByteReader, pool: &ConstantPool, kind: CpTag) -> (r: Result<(String, String, String), Error>)
    ensures
        outcome(
            decode_member_ref(old(reader)@, pool@, kind),
            match r {
                Ok((c, n, d)) => Ok::<RefV, Error>((c@, n@, d@)),
                Err(e) => Err(e),
            },
            final(reader)@,
        ),
{
    let index = reader.take_u16()?;
    pool.get_member_ref(index, kind)
}

/// Interns a member reference of kind `kind`: the class, the name, the
/// descriptor, their `NameAndType`, then the reference itself, whose index
/// it returns.
#[verifier::rlimit(80)]
fn encode_member(class: &ClassRef, name: &String, descriptor: &String, kind: CpTag, pool: &mut ConstantPool) -> (r: Result<u16, Error>)
    requires
        kind == CpTag::Fieldref || kind == CpTag::Methodref || kind == CpTag::InterfaceMethodref,
    ensures
        r is Ok ==> (crate::constant_pool::linked(old(pool)@) ==> crate::constant_pool::linked(final(pool)@)),
        r is Ok <==> old(pool)@.len() + 6 <= 0xFFFF,
        match r {
            Ok(i) => extends(final(pool)@, old(pool)@) && final(pool)@.len() == old(pool)@.len() + 6
                && member_ref_at(final(pool)@, i, kind) == Ok::<RefV, Error>((class@, name@, descriptor@))
                && i as int == old(pool)@.len() + 5
                && texts_fit(final(pool)@) == (texts_fit(old(pool)@) && ref_texts((class@, name@, descriptor@))),
            Err(e) => e == Error::TooLarge && final(pool)@ == old(pool)@,
        },
{
    if pool.len() as usize + 6 > 0xFFFF {
        return Err(Error::TooLarge);
    }
    let ghost at0 = pool@;
    let class_index = match class.encode(pool) {
        Ok(i) => i,
        Err(e) => return Err(e),
    };
    let ghost at1 = pool@;
    let name_index = match pool.push(CpInfo::Utf8 { string: name.clone() }) {
        Ok(i) => i,
        Err(e) => return Err(e),
    };
    let ghost at2 = pool@;
    let descriptor_index = match pool.push(CpInfo::Utf8 { string: descriptor.clone() }) {
        Ok(i) => i,
        Err(e) => return Err(e),
    };
    let ghost at3 = pool@;
    let name_and_type_index = match pool.push(CpInfo::NameAndType { name_index, descriptor_index }) {
        Ok(i) => i,
        Err(e) => return Err(e),
    };
    let ghost at4 = pool@;
    let constant = match kind {
        CpTag::Fieldref => CpInfo::Fieldref { class_index, name_and_type_index },
        CpTag::Methodref => CpInfo::Methodref { class_index, name_and_type_index },
        _ => CpInfo::InterfaceMethodref { class_index, name_and_type_index },
    };
    let index = match pool.push(constant) {
        Ok(i) => i,
        Err(e) => return Err(e),
    };
    proof {
        lemma_extends_pushed(at1, Cp::Utf8(name@));
        lemma_extends_pushed(at2, Cp::Utf8(descriptor@));
        lemma_extends_pushed(at3, Cp::NameAndType(name_index, descriptor_index));
        lemma_extends_pushed(at4, constant@);
        lemma_extends_trans(at0, at1, at2);
        lemma_extends_trans(at0, at2, at3);
        lemma_extends_trans(at0, at3, at4);
        lemma_extends_trans(at0, at4, pool@);
        lemma_extends_trans(at1, at2, at3);
        lemma_extends_trans(at1, at3, at4);
        lemma_extends_trans(at1, at4, pool@);
        lemma_extends_trans(at2, at3, at4);
        lemma_extends_trans(at2, at4, pool@);
        lemma_extends_trans(at3, at4, pool@);
        lemma_lookups_stable(at1, pool@, class_index);
        lemma_lookups_stable(at2, pool@, name_index);
        lemma_lookups_stable(at3, pool@, descriptor_index);
        lemma_lookups_stable(at4, pool@, name_and_type_index);
    }
    Ok(index)
}

impl FieldRef {
    /// Reads a pool index and resolves it through `Fieldref`, `Class` and `NameAndType`.
    pub fn decode(reader: &mut ByteReader, pool: &ConstantPool) -> (r: Result<FieldRef, Error>)
        ensures
            outcome(decode_member_ref(old(reader)@, pool@, CpTag::Fieldref), view_result(r), final(reader)@),
    {
        let (class, name, descriptor) = decode_member(reader, pool, CpTag::Fieldref)?;
        Ok(FieldRef { class: ClassRef(class), name, descriptor })
    }

    /// Interns the five constants of the reference and returns the `Fieldref` index.
    pub fn encode(&self, pool: &mut ConstantPool) -> (r: Result<u16, Error>)
        ensures
            r is Ok ==> (crate::constant_pool::linked(old(pool)@) ==> crate::constant_pool::linked(final(pool)@)),
            r is Ok <==> old(pool)@.len() + 6 <= 0xFFFF,
            match r {
                Ok(i) => extends(final(pool)@, old(pool)@) && final(pool)@.len() == old(pool)@.len() + 6
                    && member_ref_at(final(pool)@, i, CpTag::Fieldref) == Ok::<RefV, Error>(self@)
                    && i as int == old(pool)@.len() + 5
                    && texts_fit(final(pool)@) == (texts_fit(old(pool)@) && ref_texts(self@)),
                Err(e) => e == Error::TooLarge && final(pool)@ == old(pool)@,
            },
    {
        encode_member(&self.class, &self.name, &self.descriptor, CpTag::Fieldref, pool)
    }
}

impl MethodRef {
    /// Reads a pool index and resolves it through `Methodref`, `Class` and `NameAndType`.
    pub fn decode(reader: &mut ByteReader, pool: &ConstantPool) -> (r: Result<MethodRef, Error>)
        ensures
            outcome(decode_member_ref(old(reader)@, pool@, CpTag::Methodref), view_result(r), final(reader)@),
    {
        let (class, name, descriptor) = decode_member(reader, pool, CpTag::Methodref)?;
        Ok(MethodRef { class: ClassRef(class), name, descriptor })
    }

    /// Interns the five constants of the reference and returns the `Methodref` index.
    pub fn encode(&self, pool: &mut ConstantPool) -> (r: Result<u16, Error>)
        ensures
            r is Ok ==> (crate::constant_pool::linked(old(pool)@) ==> crate::constant_pool::linked(final(pool)@)),
            r is Ok <==> old(pool)@.len() + 6 <= 0xFFFF,
            match r {
                Ok(i) => extends(final(pool)@, old(pool)@) && final(pool)@.len() == old(pool)@.len() + 6
                    && member_ref_at(final(pool)@, i, CpTag::Methodref) == Ok::<RefV, Error>(self@)
                    && i as int == old(pool)@.len() + 5
                    && texts_fit(final(pool)@) == (texts_fit(old(pool)@) && ref_texts(self@)),
                Err(e) => e == Error::TooLarge && final(pool)@ == old(pool)@,
            },
    {
        encode_member(&self.class, &self.name, &self.descriptor, CpTag::Methodref, pool)
    }
}

impl InterfaceMethodRef {
    /// Reads a pool index and resolves it through `InterfaceMethodref`, `Class` and `NameAndType`.
    pub fn decode(reader: &mut ByteReader, pool: &ConstantPool) -> (r: Result<InterfaceMethodRef, Error>)
        ensures
            outcome(
                decode_member_ref(old(reader)@, pool@, CpTag::InterfaceMethodref),
                view_result(r),
                final(reader)@,
            ),
    {
        let (class, name, descriptor) = decode_member(reader, pool, CpTag::InterfaceMethodref)?;
        Ok(InterfaceMethodRef { class: ClassRef(class), name, descriptor })
    }

    /// Interns the five constants of the reference and returns the `InterfaceMethodref` index.
    pub fn encode(&self, pool: &mut ConstantPool) -> (r: Result<u16, Error>)
        ensures
            r is Ok ==> (crate::constant_pool::linked(old(pool)@) ==> crate::constant_pool::linked(final(pool)@)),
            r is Ok <==> old(pool)@.len() + 6 <= 0xFFFF,
            match r {
                Ok(i) => extends(final(pool)@, old(pool)@) && final(pool)@.len() == old(pool)@.len() + 6
                    && member_ref_at(final(pool)@, i, CpTag::InterfaceMethodref) == Ok::<RefV, Error>(self@)
                    && i as int == old(pool)@.len() + 5
                    && texts_fit(final(pool)@) == (texts_fit(old(pool)@) && ref_texts(self@)),
                Err(e) => e == Error::TooLarge && final(pool)@ == old(pool)@,
            },
    {
        encode_member(&self.class, &self.name, &self.descriptor, CpTag::InterfaceMethodref, pool)
    }
}


/// The operand bytes `b` encode `o` against every pool that extends `p`.
pub open spec fn encodes_operands(b: Seq<u8>, o: OperandsV, p: Seq<Option<Cp>>) -> bool {
    forall|q: Seq<Option<Cp>>, rest: Seq<u8>|
        extends(q, p) ==> #[trigger] decode_operands(operands_shape(o), b + rest, q) == Ok::<
            (OperandsV, Seq<u8>),
            Error,
        >((o, rest))
}

proof fn lemma_parse_u8(v: u8, rest: Seq<u8>)
    ensures
        parse_u8(seq![v] + rest) == Ok::<(u8, Seq<u8>), Error>((v, rest)),
{
    assert((seq![v] + rest).skip(1) =~= rest);
}

proof fn lemma_parse_two_u8(a: u8, b: u8, rest: Seq<u8>)
    ensures
        parse_two_u8(seq![a, b] + rest) == Ok::<((u8, u8), Seq<u8>), Error>(((a, b), rest)),
{
    assert(seq![a, b] + rest =~= seq![a] + (seq![b] + rest));
    lemma_parse_u8(a, seq![b] + rest);
    lemma_parse_u8(b, rest);
}

proof fn lemma_instruction_from_operands(op: u8, o: OperandsV, b: Seq<u8>, p: Seq<Option<Cp>>)
    requires
        spec_shape_of(op) == Some(operands_shape(o)),
        encodes_operands(b, o, p),
    ensures
        encodes_instruction(seq![op] + b, InstructionV { opcode: op, operands: o }, p),
{
    assert forall|q: Seq<Option<Cp>>, rest: Seq<u8>| extends(q, p) implies #[trigger] decode_instruction(
        seq![op] + b + rest,
        q,
    ) == Ok::<(InstructionV, Seq<u8>), Error>((InstructionV { opcode: op, operands: o }, rest)) by {
        assert(seq![op] + b + rest =~= seq![op] + (b + rest));
        lemma_parse_u8(op, b + rest);
        assert(decode_operands(operands_shape(o), b + rest, q) == Ok::<(OperandsV, Seq<u8>), Error>((o, rest)));
    }
}

proof fn lemma_class_operand(i: u16, name: Seq<char>, p: Seq<Option<Cp>>, q: Seq<Option<Cp>>, rest: Seq<u8>)
    requires
        class_name_at(p, i) == Ok::<Seq<char>, Error>(name),
        extends(q, p),
    ensures
        decode_class_ref(bytes16(i) + rest, q) == Ok::<(Seq<char>, Seq<u8>), Error>((name, rest)),
{
    lemma_parse_u16(i, rest);
    lemma_lookups_stable(p, q, i);
}

proof fn lemma_member_operand(i: u16, r: RefV, kind: CpTag, p: Seq<Option<Cp>>, q: Seq<Option<Cp>>, rest: Seq<u8>)
    requires
        member_ref_at(p, i, kind) == Ok::<RefV, Error>(r),
        extends(q, p),
    ensures
        decode_member_ref(bytes16(i) + rest, q, kind) == Ok::<(RefV, Seq<u8>), Error>((r, rest)),
{
    lemma_parse_u16(i, rest);
    lemma_lookups_stable(p, q, i);
}

proof fn lemma_ops_plain(p: Seq<Option<Cp>>)
    ensures
        encodes_operands(Seq::empty(), OperandsV::Plain, p),
{
    assert forall|q: Seq<Option<Cp>>, rest: Seq<u8>| extends(q, p) implies #[trigger] decode_operands(
        Shape::Plain, Seq::<u8>::empty() + rest, q) == Ok::<(OperandsV, Seq<u8>), Error>((OperandsV::Plain, rest)) by {
        assert(Seq::<u8>::empty() + rest =~= rest);
    }
}

proof fn lemma_ops_byte(a: u8, b: Seq<u8>, p: Seq<Option<Cp>>)
    requires
        b == seq![a],
    ensures
        encodes_operands(b, OperandsV::Byte(a), p),
{
    assert forall|q: Seq<Option<Cp>>, rest: Seq<u8>| extends(q, p) implies #[trigger] decode_operands(
        Shape::Byte, b + rest, q) == Ok::<(OperandsV, Seq<u8>), Error>((OperandsV::Byte(a), rest)) by {
        lemma_parse_u8(a, rest);
    }
}

proof fn lemma_ops_short(a: u16, p: Seq<Option<Cp>>)
    ensures
        encodes_operands(bytes16(a), OperandsV::Short(a), p),
{
    assert forall|q: Seq<Option<Cp>>, rest: Seq<u8>| extends(q, p) implies #[trigger] decode_operands(
        Shape::Short, bytes16(a) + rest, q) == Ok::<(OperandsV, Seq<u8>), Error>((OperandsV::Short(a), rest)) by {
        lemma_parse_u16(a, rest);
    }
}

proof fn lemma_ops_int(a: u32, p: Seq<Option<Cp>>)
    ensures
        encodes_operands(bytes32(a), OperandsV::Int(a), p),
{
    assert forall|q: Seq<Option<Cp>>, rest: Seq<u8>| extends(q, p) implies #[trigger] decode_operands(
        Shape::Int, bytes32(a) + rest, q) == Ok::<(OperandsV, Seq<u8>), Error>((OperandsV::Int(a), rest)) by {
        lemma_parse_u32(a, rest);
    }
}

proof fn lemma_ops_byte_byte(a: u8, b: u8, w: Seq<u8>, p: Seq<Option<Cp>>)
    requires
        w == seq![a, b],
    ensures
        encodes_operands(w, OperandsV::ByteByte(a, b), p),
{
    assert forall|q: Seq<Option<Cp>>, rest: Seq<u8>| extends(q, p) implies #[trigger] decode_operands(
        Shape::ByteByte, w + rest, q) == Ok::<(OperandsV, Seq<u8>), Error>((OperandsV::ByteByte(a, b), rest)) by {
        lemma_parse_two_u8(a, b, rest);
    }
}

proof fn lemma_ops_short_short(a: u16, b: u16, p: Seq<Option<Cp>>)
    ensures
        encodes_operands(bytes16(a) + bytes16(b), OperandsV::ShortShort(a, b), p),
{
    assert forall|q: Seq<Option<Cp>>, rest: Seq<u8>| extends(q, p) implies #[trigger] decode_operands(
        Shape::ShortShort, bytes16(a) + bytes16(b) + rest, q) == Ok::<(OperandsV, Seq<u8>), Error>((OperandsV::ShortShort(a, b), rest)) by {
        lemma_parse_two_u16(a, b, rest);
    }
}

proof fn lemma_ops_class(i: u16, name: Seq<char>, p: Seq<Option<Cp>>)
    requires
        class_name_at(p, i) == Ok::<Seq<char>, Error>(name),
    ensures
        encodes_operands(bytes16(i), OperandsV::Class(name), p),
{
    assert forall|q: Seq<Option<Cp>>, rest: Seq<u8>| extends(q, p) implies #[trigger] decode_operands(
        Shape::Class, bytes16(i) + rest, q) == Ok::<(OperandsV, Seq<u8>), Error>((OperandsV::Class(name), rest)) by {
        lemma_class_operand(i, name, p, q, rest);
    }
}

proof fn lemma_ops_class_byte(i: u16, name: Seq<char>, d: u8, w: Seq<u8>, p: Seq<Option<Cp>>)
    requires
        class_name_at(p, i) == Ok::<Seq<char>, Error>(name),
        w == bytes16(i) + seq![d],
    ensures
        encodes_operands(w, OperandsV::ClassByte(name, d), p),
{
    assert forall|q: Seq<Option<Cp>>, rest: Seq<u8>| extends(q, p) implies #[trigger] decode_operands(
        Shape::ClassByte, w + rest, q) == Ok::<(OperandsV, Seq<u8>), Error>((OperandsV::ClassByte(name, d), rest)) by {
        assert(w + rest =~= bytes16(i) + (seq![d] + rest));
        lemma_class_operand(i, name, p, q, seq![d] + rest);
        lemma_parse_u8(d, rest);
    }
}

proof fn lemma_ops_member(i: u16, r: RefV, kind: CpTag, p: Seq<Option<Cp>>)
    requires
        member_ref_at(p, i, kind) == Ok::<RefV, Error>(r),
        kind == CpTag::Fieldref || kind == CpTag::Methodref,
    ensures
        encodes_operands(bytes16(i), if kind == CpTag::Fieldref { OperandsV::Field(r) } else { OperandsV::Method(r) }, p),
{
    let o = if kind == CpTag::Fieldref { OperandsV::Field(r) } else { OperandsV::Method(r) };
    assert forall|q: Seq<Option<Cp>>, rest: Seq<u8>| extends(q, p) implies #[trigger] decode_operands(
        operands_shape(o), bytes16(i) + rest, q) == Ok::<(OperandsV, Seq<u8>), Error>((o, rest)) by {
        lemma_member_operand(i, r, kind, p, q, rest);
    }
}

proof fn lemma_ops_interface(i: u16, r: RefV, c: u8, z: u8, w: Seq<u8>, p: Seq<Option<Cp>>)
    requires
        member_ref_at(p, i, CpTag::InterfaceMethodref) == Ok::<RefV, Error>(r),
        w == bytes16(i) + seq![c, z],
    ensures
        encodes_operands(w, OperandsV::InterfaceMethod(r, c, z), p),
{
    assert forall|q: Seq<Option<Cp>>, rest: Seq<u8>| extends(q, p) implies #[trigger] decode_operands(
        Shape::InterfaceMethod, w + rest, q) == Ok::<(OperandsV, Seq<u8>), Error>((OperandsV::InterfaceMethod(r, c, z), rest)) by {
        assert(w + rest =~= bytes16(i) + (seq![c, z] + rest));
        lemma_member_operand(i, r, CpTag::InterfaceMethodref, p, q, seq![c, z] + rest);
        lemma_parse_two_u8(c, z, rest);
    }
}

/// The pool slots that encoding an instruction interns.
pub open spec fn instruction_need(i: InstructionV) -> nat {
    shape_need(operands_shape(i.operands))
}

/// Why encoding `i` fails when the pool cannot take its references.
pub open spec fn encode_error(i: InstructionV) -> Error {
    match spec_shape_of(i.opcode) {
        None => Error::UnknownOpcode { value: i.opcode },
        Some(sh) => if sh != operands_shape(i.operands) {
            Error::Malformed
        } else {
            Error::TooLarge
        },
    }
}

impl Shape {
    /// How many pool slots interning operands of this shape takes.
    pub fn need(&self) -> (r: usize)
        ensures
            r == shape_need(*self),
    {
        match self {
            Shape::Class | Shape::ClassByte => 2,
            Shape::Field | Shape::Method | Shape::InterfaceMethod => 6,
            _ => 0,
        }
    }
}

impl Operands {
    /// The shape of these operands.
    pub fn shape(&self) -> (r: Shape)
        ensures
            r == operands_shape(self@),
    {
        match self {
            Operands::Plain => Shape::Plain,
            Operands::Byte(..) => Shape::Byte,
            Operands::Short(..) => Shape::Short,
            Operands::Int(..) => Shape::Int,
            Operands::ByteByte(..) => Shape::ByteByte,
            Operands::ShortShort(..) => Shape::ShortShort,
            Operands::Class(..) => Shape::Class,
            Operands::ClassByte(..) => Shape::ClassByte,
            Operands::Field(..) => Shape::Field,
            Operands::Method(..) => Shape::Method,
            Operands::InterfaceMethod(..) => Shape::InterfaceMethod,
        }
    }

    /// Reads operands of shape `shape`, resolving pool references.
    pub fn decode(shape: Shape, reader: &mut ByteReader, pool: &ConstantPool) -> (r: Result<Operands, Error>)
        ensures
            outcome(decode_operands(shape, old(reader)@, pool@), view_result(r), final(reader)@),
    {
        match shape {
            Shape::Plain => Ok(Operands::Plain),
            Shape::Byte => Ok(Operands::Byte(reader.take_u8()?)),
            Shape::Short => Ok(Operands::Short(reader.take_u16()?)),
            Shape::Int => Ok(Operands::Int(reader.take_u32()?)),
            Shape::ByteByte => {
                let a = reader.take_u8()?;
                let b = reader.take_u8()?;
                Ok(Operands::ByteByte(a, b))
            },
            Shape::ShortShort => {
                let a = reader.take_u16()?;
                let b = reader.take_u16()?;
                Ok(Operands::ShortShort(a, b))
            },
            Shape::Class => Ok(Operands::Class(ClassRef::decode(reader, pool)?)),
            Shape::ClassByte => {
                let c = ClassRef::decode(reader, pool)?;
                let d = reader.take_u8()?;
                Ok(Operands::ClassByte(c, d))
            },
            Shape::Field => Ok(Operands::Field(FieldRef::decode(reader, pool)?)),
            Shape::Method => Ok(Operands::Method(MethodRef::decode(reader, pool)?)),
            Shape::InterfaceMethod => {
                let m = InterfaceMethodRef::decode(reader, pool)?;
                let c = reader.take_u8()?;
                let z = reader.take_u8()?;
                Ok(Operands::InterfaceMethod(m, c, z))
            },
        }
    }

    /// Writes operands without pool references.
    #[verifier::rlimit(40)]
    fn encode_literal(&self, pool: &mut ConstantPool, writer: &mut ByteWriter) -> (r: Result<(), Error>)
        requires
            shape_need(operands_shape(self@)) == 0,
        ensures
            r is Ok ==> (crate::constant_pool::linked(old(pool)@) ==> crate::constant_pool::linked(final(pool)@)),
            r is Ok <==> old(pool)@.len() + shape_need(operands_shape(self@)) <= 0xFFFF,
            match r {
                Ok(()) => extends(final(pool)@, old(pool)@)
                    && texts_fit(final(pool)@) == (texts_fit(old(pool)@) && operands_texts(self@))
                    && final(pool)@.len() == old(pool)@.len() + shape_need(operands_shape(self@))
                    && final(writer)@.len() == old(writer)@.len() + shape_len(operands_shape(self@))
                    && final(writer)@.take(old(writer)@.len() as int) == old(writer)@
                    && encodes_operands(final(writer)@.skip(old(writer)@.len() as int), self@, final(pool)@),
                Err(e) => e == Error::TooLarge && final(pool)@ == old(pool)@ && final(writer)@ == old(writer)@,
            },
    {
        proof {
            use_type_invariant(&*pool);
            lemma_extends_refl(pool@);
        }
        let ghost w0 = writer@;
        match self {
            Operands::Plain => {
                proof {
                    assert(writer@.skip(w0.len() as int) =~= Seq::<u8>::empty());
                    lemma_ops_plain(pool@);
                }
            },
            Operands::Byte(a) => {
                writer.write_byte(*a);
                proof {
                    assert(writer@.skip(w0.len() as int) =~= seq![*a]);
                    lemma_ops_byte(*a, writer@.skip(w0.len() as int), pool@);
                }
            },
            Operands::Short(a) => {
                writer.write(*a);
                proof {
                    assert(writer@.skip(w0.len() as int) =~= bytes16(*a));
                    lemma_ops_short(*a, pool@);
                }
            },
            Operands::Int(a) => {
                writer.write(*a);
                proof {
                    assert(writer@.skip(w0.len() as int) =~= bytes32(*a));
                    lemma_ops_int(*a, pool@);
                }
            },
            Operands::ByteByte(a, b) => {
                writer.write_byte(*a);
                writer.write_byte(*b);
                proof {
                    assert(writer@.skip(w0.len() as int) =~= seq![*a, *b]);
                    lemma_ops_byte_byte(*a, *b, writer@.skip(w0.len() as int), pool@);
                }
            },
            Operands::ShortShort(a, b) => {
                writer.write(*a);
                writer.write(*b);
                proof {
                    assert(writer@.skip(w0.len() as int) =~= bytes16(*a) + bytes16(*b));
                    lemma_ops_short_short(*a, *b, pool@);
                }
            },
            _ => {
                assert(false);
            },
        }
        assert(writer@.take(w0.len() as int) =~= w0);
        Ok(())
    }

    /// Writes operands with pool references.
    #[verifier::rlimit(40)]
    fn encode_reference(&self, pool: &mut ConstantPool, writer: &mut ByteWriter) -> (r: Result<(), Error>)
        requires
            shape_need(operands_shape(self@)) > 0,
        ensures
            r is Ok ==> (crate::constant_pool::linked(old(pool)@) ==> crate::constant_pool::linked(final(pool)@)),
            r is Ok <==> old(pool)@.len() + shape_need(operands_shape(self@)) <= 0xFFFF,
            match r {
                Ok(()) => extends(final(pool)@, old(pool)@)
                    && texts_fit(final(pool)@) == (texts_fit(old(pool)@) && operands_texts(self@))
                    && final(pool)@.len() == old(pool)@.len() + shape_need(operands_shape(self@))
                    && final(writer)@.len() == old(writer)@.len() + shape_len(operands_shape(self@))
                    && final(writer)@.take(old(writer)@.len() as int) == old(writer)@
                    && encodes_operands(final(writer)@.skip(old(writer)@.len() as int), self@, final(pool)@),
                Err(e) => e == Error::TooLarge && final(pool)@ == old(pool)@ && final(writer)@ == old(writer)@,
            },
    {
        proof {
            use_type_invariant(&*pool);
        }
        let ghost w0 = writer@;
        match self {
            Operands::Class(c) => {
                let i = c.encode(pool)?;
                writer.write(i);
                proof {
                    assert(writer@.skip(w0.len() as int) =~= bytes16(i));
                    lemma_ops_class(i, c@, pool@);
                }
            },
            Operands::ClassByte(c, d) => {
                let i = c.encode(pool)?;
                writer.write(i);
                writer.write_byte(*d);
                proof {
                    assert(writer@.skip(w0.len() as int) =~= bytes16(i) + seq![*d]);
                    lemma_ops_class_byte(i, c@, *d, writer@.skip(w0.len() as int), pool@);
                }
            },
            Operands::Field(f) => {
                let i = f.encode(pool)?;
                writer.write(i);
                proof {
                    assert(writer@.skip(w0.len() as int) =~= bytes16(i));
                    lemma_ops_member(i, f@, CpTag::Fieldref, pool@);
                }
            },
            Operands::Method(m) => {
                let i = m.encode(pool)?;
                writer.write(i);
                proof {
                    assert(writer@.skip(w0.len() as int) =~= bytes16(i));
                    lemma_ops_member(i, m@, CpTag::Methodref, pool@);
                }
            },
            Operands::InterfaceMethod(m, c, z) => {
                let i = m.encode(pool)?;
                writer.write(i);
                writer.write_byte(*c);
                writer.write_byte(*z);
                proof {
                    assert(writer@.skip(w0.len() as int) =~= bytes16(i) + seq![*c, *z]);
                    lemma_ops_interface(i, m@, *c, *z, writer@.skip(w0.len() as int), pool@);
                }
            },
            _ => {
                assert(false);
            },
        }
        assert(writer@.take(w0.len() as int) =~= w0);
        Ok(())
    }

    /// Writes the operands, interning their references into `pool`.
    fn encode(&self, pool: &mut ConstantPool, writer: &mut ByteWriter) -> (r: Result<(), Error>)
        ensures
            r is Ok ==> (crate::constant_pool::linked(old(pool)@) ==> crate::constant_pool::linked(final(pool)@)),
            r is Ok <==> old(pool)@.len() + shape_need(operands_shape(self@)) <= 0xFFFF,
            match r {
                Ok(()) => extends(final(pool)@, old(pool)@)
                    && texts_fit(final(pool)@) == (texts_fit(old(pool)@) && operands_texts(self@))
                    && final(pool)@.len() == old(pool)@.len() + shape_need(operands_shape(self@))
                    && final(writer)@.len() == old(writer)@.len() + shape_len(operands_shape(self@))
                    && final(writer)@.take(old(writer)@.len() as int) == old(writer)@
                    && encodes_operands(final(writer)@.skip(old(writer)@.len() as int), self@, final(pool)@),
                Err(e) => e == Error::TooLarge && final(pool)@ == old(pool)@ && final(writer)@ == old(writer)@,
            },
    {
        if self.shape().need() == 0 {
            self.encode_literal(pool, writer)
        } else {
            self.encode_reference(pool, writer)
        }
    }
}

impl Instruction {
    /// Reads one instruction; an opcode outside the supported set fails
    /// with `UnknownOpcode`.
    pub fn decode(reader: &mut ByteReader, pool: &ConstantPool) -> (r: Result<Instruction, Error>)
        ensures
            outcome(decode_instruction(old(reader)@, pool@), view_result(r), final(reader)@),
    {
        let opcode = reader.take_u8()?;
        let shape = match shape_of(opcode) {
            Some(s) => s,
            None => return Err(Error::UnknownOpcode { value: opcode }),
        };
        let operands = Operands::decode(shape, reader, pool)?;
        Ok(Instruction { opcode, operands })
    }

    /// Writes the instruction, interning its references into `pool`. Fails
    /// with `UnknownOpcode` for an unsupported opcode, `Malformed` where the
    /// operands do not have the opcode's shape, and `TooLarge` where the pool
    /// cannot take the references.
    pub fn encode(&self, pool: &mut ConstantPool, writer: &mut ByteWriter) -> (r: Result<(), Error>)
        ensures
            r is Ok ==> (crate::constant_pool::linked(old(pool)@) ==> crate::constant_pool::linked(final(pool)@)),
            r is Ok <==> instruction_wf(self@) && old(pool)@.len() + instruction_need(self@) <= 0xFFFF,
            match r {
                Ok(()) => extends(final(pool)@, old(pool)@)
                    && texts_fit(final(pool)@) == (texts_fit(old(pool)@) && operands_texts(self@.operands))
                    && final(pool)@.len() == old(pool)@.len() + instruction_need(self@)
                    && final(writer)@.len() == old(writer)@.len() + instruction_len(self@)
                    && final(writer)@.take(old(writer)@.len() as int) == old(writer)@
                    && encodes_instruction(final(writer)@.skip(old(writer)@.len() as int), self@, final(pool)@),
                Err(e) => e == encode_error(self@) && final(pool)@ == old(pool)@ && final(writer)@ == old(writer)@,
            },
    {
        let shape = match shape_of(self.opcode) {
            Some(s) => s,
            None => return Err(Error::UnknownOpcode { value: self.opcode }),
        };
        if shape != self.operands.shape() {
            return Err(Error::Malformed);
        }
        if pool.len() as usize + shape.need() > 0xFFFF {
            return Err(Error::TooLarge);
        }
        let ghost w0 = writer@;
        writer.write_byte(self.opcode);
        let ghost w1 = writer@;
        match self.operands.encode(pool, writer) {
            Ok(()) => {},
            Err(e) => {
                assert(false);
                return Err(e);
            },
        }
        proof {
            let b = writer@.skip(w1.len() as int);
            assert(writer@.take(w1.len() as int)[w0.len() as int] == w1[w0.len() as int]);
            assert(writer@[w0.len() as int] == self.opcode);
            assert forall|k: int| 0 <= k < w0.len() implies writer@[k] == w0[k] by {
                assert(writer@.take(w1.len() as int)[k] == w1[k]);
            }
            assert(writer@.skip(w0.len() as int) =~= seq![self.opcode] + b);
            lemma_instruction_from_operands(self.opcode, self.operands@, b, pool@);
            assert(writer@.take(w0.len() as int) =~= w0);
        }
        Ok(())
    }
}


/// The bytes `b` decode to the instructions `is` against every pool that extends `p`.
pub open spec fn encodes_code(b: Seq<u8>, is: Seq<InstructionV>, p: Seq<Option<Cp>>) -> bool {
    forall|q: Seq<Option<Cp>>| extends(q, p) ==> #[trigger] decode_code(b, q) == Ok::<Seq<InstructionV>, Error>(is)
}

/// Every instruction has a supported opcode and operands of its shape.
pub open spec fn all_wf(is: Seq<InstructionV>) -> bool {
    forall|k: int| 0 <= k < is.len() ==> instruction_wf(#[trigger] is[k])
}

/// The pool slots that encoding a run of instructions interns.
pub open spec fn code_need(is: Seq<InstructionV>) -> nat
    decreases is.len(),
{
    if is.len() == 0 {
        0
    } else {
        code_need(is.drop_last()) + instruction_need(is.last())
    }
}

proof fn lemma_code_len_push(is: Seq<InstructionV>, i: InstructionV)
    ensures
        code_len(is.push(i)) == code_len(is) + instruction_len(i),
    decreases is.len(),
{
    if is.len() == 0 {
        assert(is.push(i).drop_first() =~= Seq::<InstructionV>::empty());
        assert(code_len(is.push(i).drop_first()) == 0);
        assert(is.push(i)[0] == i);
    } else {
        lemma_code_len_push(is.drop_first(), i);
        assert(is.push(i).drop_first() =~= is.drop_first().push(i));
        assert(is.push(i)[0] == is[0]);
    }
}

proof fn lemma_code_need_mono(is: Seq<InstructionV>, k: int)
    requires
        0 <= k <= is.len(),
    ensures
        code_need(is.take(k)) <= code_need(is),
    decreases is.len(),
{
    if k < is.len() {
        lemma_code_need_mono(is.drop_last(), k);
        assert(is.drop_last().take(k) =~= is.take(k));
    } else {
        assert(is.take(k) =~= is);
    }
}

proof fn lemma_encodes_extend(b: Seq<u8>, i: InstructionV, p: Seq<Option<Cp>>, at2: Seq<Option<Cp>>)
    requires
        encodes_instruction(b, i, p),
        extends(at2, p),
    ensures
        encodes_instruction(b, i, at2),
{
    assert forall|q: Seq<Option<Cp>>, rest: Seq<u8>| extends(q, at2) implies #[trigger] decode_instruction(b + rest, q)
        == Ok::<(InstructionV, Seq<u8>), Error>((i, rest)) by {
        lemma_extends_trans(p, at2, q);
    }
}

proof fn lemma_decode_chunks(c: Seq<Seq<u8>>, is: Seq<InstructionV>, p: Seq<Option<Cp>>, q: Seq<Option<Cp>>)
    requires
        c.len() == is.len(),
        forall|j: int| 0 <= j < c.len() ==> encodes_instruction(#[trigger] c[j], is[j], p),
        forall|j: int| 0 <= j < c.len() ==> (#[trigger] c[j]).len() >= 1,
        extends(q, p),
    ensures
        decode_code(flatten(c), q) == Ok::<Seq<InstructionV>, Error>(is),
        flatten(c).len() >= c.len(),
    decreases c.len(),
{
    if c.len() == 0 {
        assert(is =~= Seq::<InstructionV>::empty());
    } else {
        let tail = flatten(c.drop_first());
        assert forall|j: int| 0 <= j < c.drop_first().len() implies encodes_instruction(
            #[trigger] c.drop_first()[j],
            is.drop_first()[j],
            p,
        ) && c.drop_first()[j].len() >= 1 by {
            assert(c.drop_first()[j] == c[j + 1]);
            assert(encodes_instruction(c[j + 1], is[j + 1], p));
            assert(c[j + 1].len() >= 1);
        }
        lemma_decode_chunks(c.drop_first(), is.drop_first(), p, q);
        assert(encodes_instruction(c[0], is[0], p));
        assert(decode_instruction(c[0] + tail, q) == Ok::<(InstructionV, Seq<u8>), Error>((is[0], tail)));
        assert(c[0].len() >= 1);
        assert(seq![is[0]] + is.drop_first() =~= is);
    }
}

proof fn lemma_flatten_len(c: Seq<Seq<u8>>, is: Seq<InstructionV>)
    requires
        c.len() == is.len(),
        forall|j: int| 0 <= j < c.len() ==> (#[trigger] c[j]).len() == instruction_len(is[j]),
    ensures
        flatten(c).len() == code_len(is),
    decreases c.len(),
{
    if c.len() > 0 {
        assert forall|j: int| 0 <= j < c.drop_first().len() implies (#[trigger] c.drop_first()[j]).len()
            == instruction_len(is.drop_first()[j]) by {
            assert(c.drop_first()[j] == c[j + 1]);
        }
        lemma_flatten_len(c.drop_first(), is.drop_first());
    }
}

/// Decodes a code array: instructions until the bytes are used up.
pub fn decode_instructions(code: Vec<u8>, pool: &ConstantPool) -> (r: Result<Vec<Instruction>, Error>)
    ensures
        match decode_code(code@, pool@) {
            Ok(is) => r matches Ok(v) && instructions_view(v@) == is,
            Err(e) => r == Err::<Vec<Instruction>, Error>(e),
        },
{
    let ghost bytes = code@;
    let mut reader = ByteReader::from(code);
    let mut out: Vec<Instruction> = Vec::new();
    proof {
        if let Ok(is) = decode_code(bytes, pool@) {
            assert(instructions_view(out@) + is =~= is);
        }
    }
    while !reader.is_empty()
        invariant
            bytes == code@,
            decode_code(bytes, pool@) == match decode_code(reader@, pool@) {
                Ok(rest) => Ok(instructions_view(out@) + rest),
                Err(e) => Err::<Seq<InstructionV>, Error>(e),
            },
        decreases reader@.len(),
    {
        let ghost before = reader@;
        proof {
            lemma_decode_instruction_len(before, pool@);
        }
        let i = match Instruction::decode(&mut reader, pool) {
            Ok(i) => i,
            Err(e) => {
                assert(decode_code(before, pool@) == Err::<Seq<InstructionV>, Error>(e));
                return Err(e);
            },
        };
        proof {
            if let Ok(rest) = decode_code(reader@, pool@) {
                assert(instructions_view(out@) + (seq![i@] + rest) =~= instructions_view(out@.push(i)) + rest);
            }
        }
        out.push(i);
    }
    proof {
        assert(instructions_view(out@) + Seq::<InstructionV>::empty() =~= instructions_view(out@));
    }
    Ok(out)
}

/// Encodes instructions in order, interning their references into `pool`.
/// Fails where an instruction cannot be encoded or the pool is full.
pub fn encode_instructions(code: &Vec<Instruction>, pool: &mut ConstantPool, writer: &mut ByteWriter) -> (r: Result<(), Error>)
    ensures
        r is Ok ==> (crate::constant_pool::linked(old(pool)@) ==> crate::constant_pool::linked(final(pool)@)),
        r is Ok <==> all_wf(instructions_view(code@)) && old(pool)@.len() + code_need(instructions_view(code@)) <= 0xFFFF,
        r is Ok ==> extends(final(pool)@, old(pool)@)
            && final(pool)@.len() == old(pool)@.len() + code_need(instructions_view(code@))
            && final(writer)@.len() == old(writer)@.len() + code_len(instructions_view(code@))
            && final(writer)@.take(old(writer)@.len() as int) == old(writer)@
            && encodes_code(final(writer)@.skip(old(writer)@.len() as int), instructions_view(code@), final(pool)@)
            && texts_fit(final(pool)@) == (texts_fit(old(pool)@) && code_texts(instructions_view(code@))),
        r matches Err(e) ==> e == Error::TooLarge || e == Error::Malformed || e is UnknownOpcode,
{
    let ghost is = instructions_view(code@);
    let ghost at0 = pool@;
    let ghost w0 = writer@;
    let ghost mut chunks: Seq<Seq<u8>> = Seq::empty();
    let mut k: usize = 0;
    proof {
        lemma_extends_refl(at0);
        assert(is.take(0) =~= Seq::<InstructionV>::empty());
        assert(w0 + flatten(chunks) =~= w0);
    }
    while k < code.len()
        invariant
            k <= code@.len(),
            at0 == old(pool)@,
            w0 == old(writer)@,
            is == instructions_view(code@),
            is.len() == code@.len(),
            extends(pool@, at0),
            crate::constant_pool::linked(at0) ==> crate::constant_pool::linked(pool@),
            pool@.len() == at0.len() + code_need(is.take(k as int)),
            writer@ == w0 + flatten(chunks),
            chunks.len() == k,
            forall|j: int| 0 <= j < k ==> encodes_instruction(#[trigger] chunks[j], is[j], pool@),
            forall|j: int| 0 <= j < k ==> (#[trigger] chunks[j]).len() == instruction_len(is[j]),
            forall|j: int| 0 <= j < k ==> instruction_wf(#[trigger] is[j]),
            texts_fit(pool@) == (texts_fit(at0) && code_texts(is.take(k as int))),
        decreases code@.len() - k,
    {
        let ghost at1 = pool@;
        let ghost w1 = writer@;
        proof {
            assert(is.take(k + 1).drop_last() =~= is.take(k as int));
            assert(is[k as int] == code@[k as int]@);
        }
        match code[k].encode(pool, writer) {
            Ok(()) => {},
            Err(e) => {
                proof {
                    use_type_invariant(&*pool);
                    if instruction_wf(is[k as int]) {
                        lemma_code_need_mono(is, k + 1);
                        assert(is.take(k + 1).last() == is[k as int]);
                    } else {
                        assert(!all_wf(is));
                    }
                }
                return Err(e);
            },
        }
        proof {
            let b = writer@.skip(w1.len() as int);
            assert(writer@ =~= w1 + b);
            lemma_flatten_push(chunks, b);
            assert forall|j: int| 0 <= j < k implies encodes_instruction(#[trigger] chunks[j], is[j], pool@) by {
                lemma_encodes_extend(chunks[j], is[j], at1, pool@);
            }
            lemma_extends_trans(at0, at1, pool@);
            lemma_code_texts_push(is, k as int);
            chunks = chunks.push(b);
        }
        k = k + 1;
    }
    proof {
        use_type_invariant(&*pool);
        assert(is.take(k as int) =~= is);
        assert(writer@.take(w0.len() as int) =~= w0);
        assert(writer@.skip(w0.len() as int) =~= flatten(chunks));
        assert forall|q: Seq<Option<Cp>>| extends(q, pool@) implies #[trigger] decode_code(
            writer@.skip(w0.len() as int),
            q,
        ) == Ok::<Seq<InstructionV>, Error>(is) by {
            lemma_decode_chunks(chunks, is, pool@, q);
        }
        lemma_flatten_len(chunks, is);
    }
    Ok(())
}

} // verus!
