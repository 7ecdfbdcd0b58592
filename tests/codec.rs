use rusty_javap::access::{
    decode_flags, encode_flags, AccessFlag, ClassAccessModifier, FieldAccessModifier, MethodAccessModifier,
    MethodParameterAccessFlags,
};
use rusty_javap::attributes::{
    Attribute, Code, ConstantValue, ExceptionTableElement, LineNumberTableElement, LocalVariableTableElement,
    MethodParameter, UnresolvedAttribute,
};
use rusty_javap::class::{Class, Interface, Version};
use rusty_javap::code::{
    decode_instructions, encode_instructions, ClassRef, FieldRef, Instruction, MethodRef, Operands, GETSTATIC,
    INVOKEVIRTUAL, LDC, RETURN, SWAP,
};
use rusty_javap::constant_pool::{long, long2bytes, ConstantPool, CpInfo, CpTag};
use rusty_javap::error::Error;
use rusty_javap::members::{Field, Member, Method};
use rusty_javap::mutf8::{decode_modified_utf8, encode_modified_utf8};
use rusty_javap::reader::ByteReader;
use rusty_javap::writer::ByteWriter;

fn pool_bytes(pool: &ConstantPool) -> Vec<u8> {
    let mut w = ByteWriter::new();
    pool.write(&mut w).unwrap();
    w.into_bytes()
}

#[test]
fn version_header() {
    let mut r = ByteReader::from(vec![0xCA, 0xFE, 0xBA, 0xBE, 0x00, 0x00, 0x00, 0x34]);
    let v = Version::read(&mut r).unwrap();
    assert_eq!(v, Version { magic: 0xCAFEBABE, minor: 0, major: 52 });
    assert!(r.is_empty());
    let mut w = ByteWriter::new();
    v.write(&mut w);
    assert_eq!(w.into_bytes(), vec![0xCA, 0xFE, 0xBA, 0xBE, 0x00, 0x00, 0x00, 0x34]);
}

#[test]
fn version_bad_magic() {
    let mut r = ByteReader::from(vec![0xDE, 0xAD, 0xBE, 0xEF, 0x00, 0x00, 0x00, 0x34]);
    assert_eq!(Version::read(&mut r), Err(Error::BadMagic { magic: 0xDEADBEEF }));
}

#[test]
fn version_short_input() {
    let mut r = ByteReader::from(vec![0xCA, 0xFE, 0xBA]);
    assert_eq!(Version::read(&mut r), Err(Error::UnexpectedEnd));
}

#[test]
fn empty_pool() {
    let mut r = ByteReader::from(vec![0x00, 0x01]);
    let pool = ConstantPool::read(&mut r).unwrap();
    assert_eq!(pool.len(), 1);
    assert_eq!(pool.entry(0).err(), Some(Error::InvalidIndex { index: 0 }));
    assert_eq!(pool_bytes(&pool), vec![0x00, 0x01]);
}

#[test]
fn wide_constant_sentinel() {
    let bytes = vec![0x00, 0x03, 0x05, 0x00, 0x00, 0x00, 0x00, 0x00, 0x00, 0x00, 0x2A];
    let mut r = ByteReader::from(bytes.clone());
    let pool = ConstantPool::read(&mut r).unwrap();
    assert_eq!(pool.len(), 3);
    assert!(matches!(pool.entry(1), Ok(CpInfo::Long { value: 42 })));
    assert_eq!(pool.entry(2).err(), Some(Error::InvalidIndex { index: 2 }));
    assert_eq!(pool_bytes(&pool), bytes);
}

#[test]
fn long_with_wide_low_half_round_trips() {
    let mut pool = ConstantPool::new();
    let value: u64 = 0x1234_5678_9ABC_DEF0;
    assert_eq!(pool.push(CpInfo::Long { value }), Ok(1));
    let bytes = pool_bytes(&pool);
    assert_eq!(bytes, vec![0x00, 0x03, 0x05, 0x12, 0x34, 0x56, 0x78, 0x9A, 0xBC, 0xDE, 0xF0]);
    let back = ConstantPool::read(&mut ByteReader::from(bytes)).unwrap();
    assert!(matches!(back.entry(1), Ok(CpInfo::Long { value: 0x1234_5678_9ABC_DEF0 })));
}

#[test]
fn wide_constant_in_last_slot_is_malformed() {
    let bytes = vec![0x00, 0x02, 0x05, 0x00, 0x00, 0x00, 0x00, 0x00, 0x00, 0x00, 0x2A];
    assert_eq!(ConstantPool::read(&mut ByteReader::from(bytes)).err(), Some(Error::Malformed));
}

#[test]
fn utf8_null_byte() {
    let bytes = vec![0x00, 0x02, 0x01, 0x00, 0x02, 0xC0, 0x80];
    let pool = ConstantPool::read(&mut ByteReader::from(bytes.clone())).unwrap();
    assert_eq!(pool.get_utf8(1), Ok("\u{0}".to_string()));
    assert_eq!(pool_bytes(&pool), bytes);
}

#[test]
fn modified_utf8_law() {
    assert_eq!(encode_modified_utf8("\u{0}"), vec![0xC0, 0x80]);
    assert_eq!(encode_modified_utf8("A"), vec![0x41]);
    assert_eq!(encode_modified_utf8("\u{E9}"), vec![0xC3, 0xA9]);
    assert_eq!(encode_modified_utf8("\u{20AC}"), vec![0xE2, 0x82, 0xAC]);
    assert_eq!(encode_modified_utf8("\u{1F600}"), vec![0xED, 0xA0, 0xBD, 0xED, 0xB8, 0x80]);
    let text = "a\u{0}\u{E9}\u{20AC}\u{1F600}z";
    assert_eq!(decode_modified_utf8(&encode_modified_utf8(text)), Ok(text.to_string()));
}

#[test]
fn modified_utf8_rejects_malformed() {
    assert_eq!(decode_modified_utf8(&[0x00]), Err(Error::BadUtf8));
    assert_eq!(decode_modified_utf8(&[0xC3]), Err(Error::BadUtf8));
    assert_eq!(decode_modified_utf8(&[0xED, 0xB8, 0x80]), Err(Error::BadUtf8));
    assert_eq!(decode_modified_utf8(&[0xF0, 0x9F, 0x98, 0x80]), Err(Error::BadUtf8));
}

#[test]
fn bad_constant_tag() {
    let bytes = vec![0x00, 0x02, 0x02, 0x00];
    assert_eq!(ConstantPool::read(&mut ByteReader::from(bytes)).err(), Some(Error::BadConstantTag { value: 2 }));
}

#[test]
fn pool_lookups_check_tags() {
    let mut pool = ConstantPool::new();
    let name = pool.push(CpInfo::Utf8 { string: "java/lang/Object".to_string() }).unwrap();
    let class = pool.push(CpInfo::Class { name_index: name }).unwrap();
    assert_eq!((name, class), (1, 2));
    assert_eq!(pool.get_class_name(class), Ok("java/lang/Object".to_string()));
    assert_eq!(pool.get_class_name(name), Err(Error::WrongTag { index: 1, expected: 7, found: 1 }));
    assert_eq!(pool.get_utf8(class), Err(Error::WrongTag { index: 2, expected: 1, found: 7 }));
    assert_eq!(pool.get_utf8(9), Err(Error::InvalidIndex { index: 9 }));
}

#[test]
fn cp_tag_bytes() {
    assert_eq!(CpTag::from_byte(12), Ok(CpTag::NameAndType));
    assert_eq!(CpTag::NameAndType.byte(), 12);
    assert_eq!(CpTag::from_byte(13), Err(Error::BadConstantTag { value: 13 }));
}

#[test]
fn long_halves() {
    assert_eq!(long(0x1, 0x2), 0x1_0000_0002);
    assert_eq!(long2bytes(0x1234_5678_9ABC_DEF0), (0x1234_5678, 0x9ABC_DEF0));
}

#[test]
fn reader_take_bytes() {
    assert!(ByteReader::from(vec![]).is_empty());
    assert!(!ByteReader::from(vec![1]).is_empty());
    let mut reader = ByteReader::from(vec![1; 12]);
    assert_eq!(reader.take_bytes(4).map(|b| b.to_vec()), Ok(vec![1; 4]));
    assert!(!reader.is_empty());
    assert_eq!(reader.take_bytes(10).err(), Some(Error::UnexpectedEnd));
    assert_eq!(reader.take_bytes(usize::MAX).map(|b| b.len()), Ok(8));
    assert!(reader.is_empty());
    assert_eq!(ByteReader::from(vec![0; 12]).take_bytes(3).map(|b| b.to_vec()), Ok(vec![0; 3]));
    assert_eq!(ByteReader::from(vec![7, 8, 9]).deplete(), vec![7, 8, 9]);
}

#[test]
fn reader_big_endian() {
    let mut r = ByteReader::from(vec![0x12, 0x34, 0x56, 0x78, 0x9A, 0xBC, 0xDE]);
    assert_eq!(r.take_u16(), Ok(0x1234));
    assert_eq!(r.take_u32(), Ok(0x5678_9ABC));
    assert_eq!(r.take_u8(), Ok(0xDE));
    assert_eq!(r.take_u8(), Err(Error::UnexpectedEnd));
}

#[test]
fn writer_big_endian() {
    let mut w = ByteWriter::new();
    w.write_byte(0x01);
    w.write(0x0203u16);
    w.write(0x0405_0607u32);
    assert_eq!(w.into_bytes(), vec![1, 2, 3, 4, 5, 6, 7]);
}

#[test]
fn access_flags_decode_and_encode() {
    let flags: Vec<MethodAccessModifier> = decode_flags(0x0009);
    assert_eq!(flags, vec![MethodAccessModifier::PUBLIC, MethodAccessModifier::STATIC]);
    assert_eq!(encode_flags(&flags), 0x0009);
    let class_flags: Vec<ClassAccessModifier> = decode_flags(0x0021 | 0x0100);
    assert_eq!(class_flags, vec![ClassAccessModifier::PUBLIC, ClassAccessModifier::SUPER]);
    let method_flags: Vec<MethodAccessModifier> = decode_flags(0x0020);
    assert_eq!(method_flags, vec![MethodAccessModifier::SYNCHRONIZED]);
    let p: Vec<MethodParameterAccessFlags> = decode_flags(0x9010);
    assert_eq!(p, MethodParameterAccessFlags::variants());
    assert_eq!(FieldAccessModifier::variants().len(), 9);
    assert_eq!(FieldAccessModifier::ENUM.mask(), 0x4000);
}

fn field_ref(class: &str, name: &str, descriptor: &str) -> FieldRef {
    FieldRef { class: ClassRef(class.to_string()), name: name.to_string(), descriptor: descriptor.to_string() }
}

fn method_ref(class: &str, name: &str, descriptor: &str) -> MethodRef {
    MethodRef { class: ClassRef(class.to_string()), name: name.to_string(), descriptor: descriptor.to_string() }
}

#[test]
fn getstatic_field_reference() {
    let mut pool = ConstantPool::new();
    let out = field_ref("java/lang/System", "out", "Ljava/io/PrintStream;");
    let index = out.encode(&mut pool).unwrap();
    assert_eq!(index, 6);
    let code = vec![GETSTATIC, 0x00, index as u8];
    let decoded = decode_instructions(code, &pool).unwrap();
    assert_eq!(decoded, vec![Instruction { opcode: GETSTATIC, operands: Operands::Field(out.clone()) }]);

    let mut fresh = ConstantPool::new();
    let mut w = ByteWriter::new();
    decoded[0].encode(&mut fresh, &mut w).unwrap();
    let bytes = w.into_bytes();
    assert_eq!(bytes.len(), 3);
    assert_eq!(bytes[0], 0xB2);
    let again = decode_instructions(bytes, &fresh).unwrap();
    assert_eq!(again, vec![Instruction { opcode: GETSTATIC, operands: Operands::Field(out) }]);
}

#[test]
fn unknown_opcode() {
    let pool = ConstantPool::new();
    assert_eq!(decode_instructions(vec![0xAA], &pool), Err(Error::UnknownOpcode { value: 0xAA }));
    assert_eq!(decode_instructions(vec![0xC4], &pool), Err(Error::UnknownOpcode { value: 0xC4 }));
    let mut fresh = ConstantPool::new();
    let mut w = ByteWriter::new();
    let bad = Instruction { opcode: 0xAB, operands: Operands::Plain };
    assert_eq!(bad.encode(&mut fresh, &mut w), Err(Error::UnknownOpcode { value: 0xAB }));
    let mismatched = Instruction { opcode: RETURN, operands: Operands::Byte(1) };
    assert_eq!(mismatched.encode(&mut fresh, &mut w), Err(Error::Malformed));
}

#[test]
fn opcode_lengths_add_up() {
    let pool = ConstantPool::new();
    let code = vec![0x10, 0x05, 0x11, 0x01, 0x00, 0x84, 0x01, 0xFF, 0xC8, 0, 0, 0, 9, 0x59, 0xB1];
    let decoded = decode_instructions(code.clone(), &pool).unwrap();
    assert_eq!(decoded.len(), 6);
    let lengths: usize = decoded
        .iter()
        .map(|i| match i.operands {
            Operands::Plain => 1,
            Operands::Byte(_) => 2,
            Operands::Short(_) | Operands::ByteByte(..) => 3,
            Operands::Int(_) => 5,
            _ => 0,
        })
        .sum();
    assert_eq!(lengths, code.len());
    let mut fresh = ConstantPool::new();
    let mut w = ByteWriter::new();
    encode_instructions(&decoded, &mut fresh, &mut w).unwrap();
    assert_eq!(w.into_bytes(), code);
}

#[test]
fn truncated_instruction() {
    let pool = ConstantPool::new();
    assert_eq!(decode_instructions(vec![0x11, 0x01], &pool), Err(Error::UnexpectedEnd));
}

fn round_trip_attribute(a: &Attribute) -> Attribute {
    let mut pool = ConstantPool::new();
    let raw = a.unresolve(&mut pool).unwrap();
    raw.resolve(&pool).unwrap()
}

#[test]
fn unknown_attribute_is_opaque() {
    let a = Attribute::Unknown { name: "StackMapTable".to_string(), info: vec![1, 2, 3, 0] };
    let mut pool = ConstantPool::new();
    let raw = a.unresolve(&mut pool).unwrap();
    assert_eq!(raw.info, vec![1, 2, 3, 0]);
    assert_eq!(pool.get_utf8(raw.name_index), Ok("StackMapTable".to_string()));
    let mut w = ByteWriter::new();
    rusty_javap::attributes::write_attributes(&vec![a], &mut ConstantPool::new(), &mut w).unwrap();
    let bytes = w.into_bytes();
    assert_eq!(&bytes[4..8], &[0, 0, 0, 4]);
    assert_eq!(&bytes[8..], &[1, 2, 3, 0]);
    let back = raw.resolve(&pool).unwrap();
    assert_eq!(back, Attribute::Unknown { name: "StackMapTable".to_string(), info: vec![1, 2, 3, 0] });
}

#[test]
fn attributes_round_trip() {
    let attrs = vec![
        Attribute::ConstantValue(ConstantValue::Integer(7)),
        Attribute::ConstantValue(ConstantValue::Long(1 << 40)),
        Attribute::ConstantValue(ConstantValue::Float(0x3F80_0000)),
        Attribute::ConstantValue(ConstantValue::Double(0x3FF0_0000_0000_0000)),
        Attribute::ConstantValue(ConstantValue::String("hi".to_string())),
        Attribute::SourceFile("Example.java".to_string()),
        Attribute::Signature("Ljava/util/List<Ljava/lang/String;>;".to_string()),
        Attribute::Synthetic,
        Attribute::Deprecated,
        Attribute::LineNumberTable(vec![LineNumberTableElement { start_pc: 0, line_number: 3 }]),
        Attribute::LocalVariableTable(vec![LocalVariableTableElement {
            start_pc: 0,
            length: 5,
            name: "args".to_string(),
            descriptor: "[Ljava/lang/String;".to_string(),
            index: 0,
        }]),
        Attribute::MethodParameters(vec![
            MethodParameter { name: Some("x".to_string()), access_flags: vec![MethodParameterAccessFlags::FINAL] },
            MethodParameter { name: None, access_flags: vec![] },
        ]),
    ];
    for a in &attrs {
        assert_eq!(&round_trip_attribute(a), a);
    }
}

#[test]
fn code_attribute_round_trip() {
    let code = Attribute::Code(Code {
        max_stack: 2,
        max_locals: 1,
        code: vec![
            Instruction { opcode: 0x2A, operands: Operands::Plain },
            Instruction { opcode: 0xBB, operands: Operands::Class(ClassRef("java/lang/Object".to_string())) },
            Instruction { opcode: RETURN, operands: Operands::Plain },
        ],
        exception_table: vec![
            ExceptionTableElement { start_pc: 0, end_pc: 4, handler_pc: 4, catch_type: None },
            ExceptionTableElement {
                start_pc: 0,
                end_pc: 4,
                handler_pc: 4,
                catch_type: Some("java/lang/Exception".to_string()),
            },
        ],
        attributes: vec![Attribute::LineNumberTable(vec![LineNumberTableElement { start_pc: 0, line_number: 1 }])],
    });
    assert_eq!(round_trip_attribute(&code), code);
}

#[test]
fn known_attribute_with_trailing_bytes() {
    let mut pool = ConstantPool::new();
    let name = pool.push(CpInfo::Utf8 { string: "Synthetic".to_string() }).unwrap();
    let raw = UnresolvedAttribute { name_index: name, info: vec![0] };
    assert_eq!(raw.resolve(&pool), Err(Error::TrailingBytes));
}

#[test]
fn constant_value_of_wrong_kind() {
    let mut pool = ConstantPool::new();
    let name = pool.push(CpInfo::Utf8 { string: "ConstantValue".to_string() }).unwrap();
    let raw = UnresolvedAttribute { name_index: name, info: vec![0, 1] };
    assert_eq!(raw.resolve(&pool), Err(Error::WrongTag { index: 1, expected: 0, found: 1 }));
}

#[test]
fn too_many_parameters() {
    let params = (0..256).map(|_| MethodParameter { name: None, access_flags: vec![] }).collect();
    let mut pool = ConstantPool::new();
    assert_eq!(Attribute::MethodParameters(params).unresolve(&mut pool).err(), Some(Error::TooLarge));
}

fn hello_world_class() -> Class {
    let code = Code {
        max_stack: 3,
        max_locals: 1,
        code: vec![
            Instruction { opcode: LDC, operands: Operands::Byte(2) },
            Instruction {
                opcode: INVOKEVIRTUAL,
                operands: Operands::Method(method_ref("java/lang/Class", "getName", "()Ljava/lang/String;")),
            },
            Instruction {
                opcode: GETSTATIC,
                operands: Operands::Field(field_ref("java/lang/System", "out", "Ljava/io/PrintStream;")),
            },
            Instruction { opcode: SWAP, operands: Operands::Plain },
            Instruction {
                opcode: INVOKEVIRTUAL,
                operands: Operands::Method(method_ref("java/io/PrintStream", "println", "(Ljava/lang/String;)V")),
            },
            Instruction { opcode: RETURN, operands: Operands::Plain },
        ],
        exception_table: vec![],
        attributes: vec![],
    };
    let main: Method = Member {
        access_flags: vec![MethodAccessModifier::PUBLIC, MethodAccessModifier::STATIC],
        name: "main".to_string(),
        descriptor: "([Ljava/lang/String;)V".to_string(),
        attributes: vec![Attribute::Code(code)],
    };
    Class {
        version: Version::new(0xCAFEBABE, 53, 0),
        access_flags: vec![ClassAccessModifier::PUBLIC],
        this_class: "HelloWorld".to_string(),
        super_class: Some("java/lang/Object".to_string()),
        interfaces: vec![],
        fields: vec![],
        methods: vec![main],
        attributes: vec![],
    }
}

#[test]
fn hello_world() {
    let class = hello_world_class();
    let bytes = class.write().unwrap();
    assert_eq!(&bytes[0..8], &[0xCA, 0xFE, 0xBA, 0xBE, 0x00, 0x00, 0x00, 0x35]);
    let pool = ConstantPool::read(&mut ByteReader::from(bytes[8..].to_vec())).unwrap();
    assert_eq!(pool.get_class_name(2), Ok("HelloWorld".to_string()));
    let back = Class::decode(bytes).unwrap();
    assert_eq!(back, class);
}

#[test]
fn class_round_trip_twice() {
    let mut class = hello_world_class();
    class.interfaces = vec![Interface::new("java/io/Serializable".to_string())];
    class.fields = vec![Field::new(
        vec![FieldAccessModifier::PRIVATE, FieldAccessModifier::STATIC, FieldAccessModifier::FINAL],
        "COUNT".to_string(),
        "I".to_string(),
        vec![Attribute::ConstantValue(ConstantValue::Integer(3))],
    )];
    class.attributes = vec![Attribute::SourceFile("HelloWorld.java".to_string())];
    let first = class.write().unwrap();
    let decoded = Class::decode(first).unwrap();
    assert_eq!(decoded, class);
    let second = decoded.write().unwrap();
    assert_eq!(Class::decode(second).unwrap(), class);
}

#[test]
fn class_without_super() {
    let mut class = hello_world_class();
    class.super_class = None;
    let back = Class::decode(class.write().unwrap()).unwrap();
    assert_eq!(back.super_class, None);
}

#[test]
fn class_with_bad_magic() {
    let mut bytes = hello_world_class().write().unwrap();
    bytes[0] = 0xDE;
    assert_eq!(Class::decode(bytes), Err(Error::BadMagic { magic: 0xDEFEBABE }));
}

#[test]
fn class_truncated() {
    let bytes = hello_world_class().write().unwrap();
    assert_eq!(Class::decode(bytes[..bytes.len() - 1].to_vec()), Err(Error::UnexpectedEnd));
}

#[test]
fn pool_overflow_is_reported() {
    let mut pool = ConstantPool::new();
    for _ in 1..0xFFFF {
        pool.push(CpInfo::Integer { value: 0 }).unwrap();
    }
    assert_eq!(pool.len(), 0xFFFF);
    assert_eq!(pool.push(CpInfo::Integer { value: 0 }), Err(Error::TooLarge));
}

#[test]
fn class_pool_slots() {
    let bytes = hello_world_class().write().unwrap();
    let pool = ConstantPool::read(&mut ByteReader::from(bytes[8..].to_vec())).unwrap();
    assert!(matches!(pool.entry(1), Ok(CpInfo::Utf8 { string }) if string == "HelloWorld"));
    assert!(matches!(pool.entry(2), Ok(CpInfo::Class { name_index: 1 })));
    assert!(matches!(pool.entry(3), Ok(CpInfo::Utf8 { string }) if string == "java/lang/Object"));
    assert!(matches!(pool.entry(4), Ok(CpInfo::Class { name_index: 3 })));
    let mut w = ByteWriter::new();
    pool.write(&mut w).unwrap();
    let pool_len = w.into_bytes().len();
    let after = &bytes[8 + pool_len..8 + pool_len + 6];
    assert_eq!(after, &[0x00, 0x01, 0x00, 0x02, 0x00, 0x04]);
}

#[test]
fn unknown_attribute_takes_one_slot() {
    let mut pool = ConstantPool::new();
    pool.push(CpInfo::Integer { value: 1 }).unwrap();
    let raw = Attribute::Unknown { name: "X".to_string(), info: vec![9] }.unresolve(&mut pool).unwrap();
    assert_eq!(raw.name_index, 2);
    assert_eq!(pool.len(), 3);
}

#[test]
fn constant_value_slots() {
    let mut pool = ConstantPool::new();
    let raw = Attribute::ConstantValue(ConstantValue::String("s".to_string())).unresolve(&mut pool).unwrap();
    assert_eq!(raw.name_index, 1);
    assert_eq!(raw.info, vec![0, 3]);
    assert!(matches!(pool.entry(2), Ok(CpInfo::Utf8 { string }) if string == "s"));
    assert!(matches!(pool.entry(3), Ok(CpInfo::String { string_index: 2 })));
    let mut pool = ConstantPool::new();
    let raw = Attribute::ConstantValue(ConstantValue::Long(5)).unresolve(&mut pool).unwrap();
    assert_eq!(raw.info, vec![0, 2]);
    assert_eq!(pool.len(), 4);
}

#[test]
fn member_name_slots() {
    let mut pool = ConstantPool::new();
    let field = Field::new(vec![], "f".to_string(), "I".to_string(), vec![]);
    let mut w = ByteWriter::new();
    field.encode(&mut pool, &mut w).unwrap();
    assert_eq!(pool.get_utf8(1), Ok("f".to_string()));
    assert_eq!(pool.get_utf8(2), Ok("I".to_string()));
    assert_eq!(w.into_bytes(), vec![0, 0, 0, 1, 0, 2, 0, 0]);
}

#[test]
fn field_ref_slots_follow_pool() {
    let mut pool = ConstantPool::new();
    pool.push(CpInfo::Integer { value: 0 }).unwrap();
    let index = field_ref("A", "b", "I").encode(&mut pool).unwrap();
    assert_eq!(index, 7);
    assert_eq!(pool.len(), 8);
    assert!(matches!(pool.entry(1), Ok(CpInfo::Integer { value: 0 })));
}

#[test]
fn failed_reads_keep_the_cursor() {
    let mut r = ByteReader::from(vec![1, 2, 3]);
    assert_eq!(r.take_u32(), Err(Error::UnexpectedEnd));
    assert_eq!(r.take_bytes(4).err(), Some(Error::UnexpectedEnd));
    assert_eq!(r.take_u16(), Ok(0x0102));
}

#[test]
fn code_attribute_reports_unknown_opcode() {
    let code = Attribute::Code(Code {
        max_stack: 0,
        max_locals: 0,
        code: vec![Instruction { opcode: 0xAA, operands: Operands::Plain }],
        exception_table: vec![],
        attributes: vec![],
    });
    assert_eq!(code.unresolve(&mut ConstantPool::new()).err(), Some(Error::UnknownOpcode { value: 0xAA }));
}

#[test]
fn class_with_overlong_text_fails() {
    let mut class = hello_world_class();
    class.attributes = vec![Attribute::SourceFile("x".repeat(0x10000))];
    assert_eq!(class.write(), Err(Error::TooLarge));
    class.attributes = vec![Attribute::SourceFile("x".repeat(0xFFFF))];
    assert!(class.write().is_ok());
}
