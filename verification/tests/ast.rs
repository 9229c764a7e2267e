use onyx::ast::{
    Definition, EnumDef, Field, MessageDef, OnyxModule, PrimitiveType, Type, WireEndianness,
};

#[test]
fn test_primitive_type_sizes() {
    assert_eq!(PrimitiveType::Bool.get_bit_width(), 8);
    assert_eq!(PrimitiveType::U8.get_bit_width(), 8);
    assert_eq!(PrimitiveType::U32.get_bit_width(), 32);
    assert_eq!(PrimitiveType::F64.get_bit_width(), 64);

    assert_eq!(PrimitiveType::Bool.get_byte_size(), 1);
    assert_eq!(PrimitiveType::U16.get_byte_size(), 2);
    assert_eq!(PrimitiveType::I32.get_byte_size(), 4);
    assert_eq!(PrimitiveType::F64.get_byte_size(), 8);
}

#[test]
fn test_primitive_table_complete() {
    let prims = vec![
        PrimitiveType::Bool,
        PrimitiveType::U8,
        PrimitiveType::U16,
        PrimitiveType::U32,
        PrimitiveType::U64,
        PrimitiveType::I8,
        PrimitiveType::I16,
        PrimitiveType::I32,
        PrimitiveType::I64,
        PrimitiveType::F32,
        PrimitiveType::F64,
    ];
    for p in prims {
        let bits = p.get_bit_width();
        assert!(bits == 8 || bits == 16 || bits == 32 || bits == 64);
        assert_eq!(p.get_byte_size(), bits / 8);
    }
}

#[test]
fn test_field_bit_width_primitive() {
    let module = OnyxModule::default();
    let field = Field {
        name: "test".to_string(),
        type_info: Type::Primitive(PrimitiveType::U32),
        bit_field_size: None,
    };
    assert_eq!(field.get_bit_width(&module), 32);
}

#[test]
fn test_field_bit_width_bitfield() {
    let module = OnyxModule::default();
    let field = Field {
        name: "test".to_string(),
        type_info: Type::Primitive(PrimitiveType::U32),
        bit_field_size: Some(12),
    };
    assert_eq!(field.get_bit_width(&module), 12);
}

#[test]
fn test_field_bit_width_custom() {
    let mut module = OnyxModule::default();
    let enum_def = EnumDef {
        name: "MyEnum".to_string(),
        underlying_type: PrimitiveType::U16,
        variants: vec![],
    };
    module.definitions.push(Definition::Enum(enum_def));

    let field = Field {
        name: "test".to_string(),
        type_info: Type::Custom("MyEnum".to_string()),
        bit_field_size: None,
    };

    // Enum underlying type is U16 (2 bytes), so size is 2 * 8 = 16 bits
    assert_eq!(field.get_bit_width(&module), 16);
}

#[test]
fn test_definition_helpers() {
    let msg_def = MessageDef { name: "MyMsg".to_string(), fields: vec![], size: Some(100) };
    let def = Definition::Message(msg_def);

    assert_eq!(def.name(), "MyMsg");
    assert_eq!(def.size(), Some(100));

    let enum_def = EnumDef {
        name: "MyEnum".to_string(),
        underlying_type: PrimitiveType::U8,
        variants: vec![],
    };
    let def_enum = Definition::Enum(enum_def);
    assert_eq!(def_enum.size(), Some(8)); // 1 byte = 8 bits
}

#[test]
fn test_module_lookup() {
    let mut module = OnyxModule::default();
    assert_eq!(module.endianness, WireEndianness::Little);
    assert!(!module.contains_definition("A"));
    module.definitions.push(Definition::Enum(EnumDef {
        name: "A".to_string(),
        underlying_type: PrimitiveType::U8,
        variants: vec![],
    }));
    assert!(module.contains_definition("A"));
    assert!(!module.contains_definition("B"));
    let found = module.get_definition("A").unwrap();
    assert_eq!(found.name(), "A");
}
