use onyx::ast::{Definition, PrimitiveType, WireEndianness};
use onyx::parser::Parser;

#[test]
fn test_parse_simple_struct() {
    let source = "struct MyStruct { field1 u8, field2 u32, }";
    let parser = Parser::new(source).unwrap();
    let module = parser.parse_module().unwrap();

    assert!(module.contains_definition("MyStruct"));
    if let Definition::Struct(s) = module.get_definition("MyStruct").unwrap() {
        assert_eq!(s.name, "MyStruct");
        assert_eq!(s.fields.len(), 2);
        assert_eq!(s.fields[0].name, "field1");
        assert_eq!(s.fields[1].name, "field2");
        assert_eq!(s.size, Some(40)); // 8 + 32 = 40 bits
    } else {
        panic!("Expected Struct definition");
    }
}

#[test]
fn test_parse_enum() {
    let source = "enum MyEnum : u8 { A = 1, B, }";
    let parser = Parser::new(source).unwrap();
    let module = parser.parse_module().unwrap();

    assert!(module.contains_definition("MyEnum"));
    if let Definition::Enum(e) = module.get_definition("MyEnum").unwrap() {
        assert_eq!(e.name, "MyEnum");
        assert_eq!(e.underlying_type, PrimitiveType::U8);
        assert_eq!(e.variants.len(), 2);
        assert_eq!(e.variants[0].name, "A");
        assert_eq!(e.variants[0].value, Some(1));
        assert_eq!(e.variants[1].name, "B");
        assert_eq!(e.variants[1].value, None);
    } else {
        panic!("Expected Enum definition");
    }
}

#[test]
fn test_parse_message() {
    let source = "message MyMsg { id u64, }";
    let parser = Parser::new(source).unwrap();
    let module = parser.parse_module().unwrap();

    assert!(module.contains_definition("MyMsg"));
    if let Definition::Message(m) = module.get_definition("MyMsg").unwrap() {
        assert_eq!(m.name, "MyMsg");
        assert_eq!(m.fields.len(), 1);
        assert_eq!(m.size, Some(64));
    } else {
        panic!("Expected Message definition");
    }
}

#[test]
fn test_endianness() {
    let source = "endian = big struct S { f u8, }";
    let parser = Parser::new(source).unwrap();
    let module = parser.parse_module().unwrap();

    assert_eq!(module.endianness, WireEndianness::Big);
}

#[test]
fn test_circular_dependency() {
    let source = "struct A { b B, } struct B { a A, }";
    let parser = Parser::new(source).unwrap();
    let result = parser.parse_module();

    assert!(result.is_err());
    let err = result.err().unwrap();
    assert!(err.0.contains("circular dependency detected"));
}

#[test]
fn test_duplicate_definition() {
    let source = "struct A { f u8, } struct A { f u8, }";
    let parser = Parser::new(source).unwrap();
    let result = parser.parse_module();

    assert!(result.is_err());
    let err = result.err().unwrap();
    assert!(err.0.contains("already exists"));
}

#[test]
fn test_bit_field_too_large() {
    let source = "struct A { f u8 : 9, }";
    let parser = Parser::new(source).unwrap();
    let result = parser.parse_module();

    assert!(result.is_err());
    let err = result.err().unwrap();
    assert!(err.0.contains("exceeds type"));
}

#[test]
fn test_bit_field_width() {
    let source = "struct A { f u8 : 4, }";
    let parser = Parser::new(source).unwrap();
    let module = parser.parse_module().unwrap();
    if let Definition::Struct(s) = module.get_definition("A").unwrap() {
        assert_eq!(s.fields[0].bit_field_size, Some(4));
        assert_eq!(s.size, Some(4));
    } else {
        panic!("Expected Struct definition");
    }
}

#[test]
fn test_bit_field_on_custom_type_rejected() {
    let source = "struct B { f u8, } struct A { b B : 4, }";
    let parser = Parser::new(source).unwrap();
    assert!(parser.parse_module().is_err());
}

#[test]
fn test_empty_source_rejected() {
    assert!(Parser::new("").is_err());
}

#[test]
fn test_whitespace_only_module_is_empty() {
    // A syntactically empty but present module, as opposed to an empty
    // source, parses to a module with no definitions.
    let parser = Parser::new("   \n  ").unwrap();
    let module = parser.parse_module().unwrap();
    assert_eq!(module.definitions.len(), 0);
    assert_eq!(module.endianness, WireEndianness::Little);
}

#[test]
fn test_endianness_default_little() {
    let source = "struct S { f u8, }";
    let parser = Parser::new(source).unwrap();
    let module = parser.parse_module().unwrap();
    assert_eq!(module.endianness, WireEndianness::Little);
}

#[test]
fn test_endianness_alone() {
    let source = "endian = big";
    let parser = Parser::new(source).unwrap();
    let module = parser.parse_module().unwrap();
    assert_eq!(module.endianness, WireEndianness::Big);
    assert_eq!(module.definitions.len(), 0);
}

#[test]
fn test_duplicate_endianness_rejected() {
    let source = "endian = big endian = little struct S { f u8, }";
    let parser = Parser::new(source).unwrap();
    assert!(parser.parse_module().is_err());
}

#[test]
fn test_undefined_type_error() {
    let source = "struct A { b B, }";
    let parser = Parser::new(source).unwrap();
    let result = parser.parse_module();
    assert!(result.is_err());
    let err = result.err().unwrap();
    assert!(err.0.contains("custom type 'B' not defined"));
}

#[test]
fn test_forward_reference_allowed() {
    let source = "struct A { b B, } struct B { f u16, }";
    let parser = Parser::new(source).unwrap();
    let module = parser.parse_module().unwrap();
    assert_eq!(module.get_definition("A").unwrap().size(), Some(16));
    assert_eq!(module.get_definition("B").unwrap().size(), Some(16));
    // Dependency order: B must come before A.
    let pos_a = module.order.iter().position(|n| n == "A").unwrap();
    let pos_b = module.order.iter().position(|n| n == "B").unwrap();
    assert!(pos_b < pos_a);
}

#[test]
fn test_resolution_order_independent() {
    // The same definitions in either textual order resolve to the same
    // sizes, with every dependency preceding its dependents.
    let m1 = Parser::new("struct A { b B, c u8, } struct B { f u32, }")
        .unwrap()
        .parse_module()
        .unwrap();
    let m2 = Parser::new("struct B { f u32, } struct A { b B, c u8, }")
        .unwrap()
        .parse_module()
        .unwrap();
    assert_eq!(m1.get_definition("A").unwrap().size(), Some(40));
    assert_eq!(m2.get_definition("A").unwrap().size(), Some(40));
    assert_eq!(m1.get_definition("B").unwrap().size(), Some(32));
    assert_eq!(m2.get_definition("B").unwrap().size(), Some(32));
}

#[test]
fn test_resolution_idempotent() {
    // Parsing and resolving the same source twice yields identical modules.
    let m1 = Parser::new("struct A { b B, } struct B { f u8, }").unwrap().parse_module().unwrap();
    let m2 = Parser::new("struct A { b B, } struct B { f u8, }").unwrap().parse_module().unwrap();
    assert_eq!(m1, m2);
}

#[test]
fn test_error_includes_position_and_context() {
    let source = "struct { f u8, }";
    let parser = Parser::new(source).unwrap();
    let err = parser.parse_module().err().unwrap();
    assert!(err.0.contains("Expected an identifier, found OpenBrace"));
    assert!(err.0.contains("at position 1:8"));
    assert!(err.0.contains("struct {"));
    assert!(err.0.contains("^"));
}

#[test]
fn test_lexical_error_rejected_by_parser() {
    let source = "struct A $ { f u8, }";
    let parser = Parser::new(source).unwrap();
    let err = parser.parse_module().err().unwrap();
    assert!(err.0.contains("Unrecognized character"));
}

#[test]
fn test_empty_struct_resolves_to_zero() {
    let source = "struct A { }";
    let parser = Parser::new(source).unwrap();
    let module = parser.parse_module().unwrap();
    assert_eq!(module.get_definition("A").unwrap().size(), Some(0));
}

#[test]
fn test_enum_never_cyclic() {
    let source = "enum E : u16 { A, } struct S { e E, f E, }";
    let parser = Parser::new(source).unwrap();
    let module = parser.parse_module().unwrap();
    assert_eq!(module.get_definition("S").unwrap().size(), Some(32));
    assert_eq!(module.get_definition("E").unwrap().size(), Some(16));
}

#[test]
fn test_enum_assignment_requires_literal() {
    let source = "enum E : u8 { A = x, }";
    let parser = Parser::new(source).unwrap();
    let err = parser.parse_module().err().unwrap();
    assert!(err.0.contains("expected integer literal for enum assignment"));
}

#[test]
fn test_bit_field_requires_literal() {
    let source = "struct A { f u8 : , }";
    let parser = Parser::new(source).unwrap();
    let err = parser.parse_module().err().unwrap();
    assert!(err.0.contains("expected integer literal for bit-field size"));
}

#[test]
fn test_endianness_requires_big_or_little() {
    let source = "endian = sideways struct S { f u8, }";
    let parser = Parser::new(source).unwrap();
    let err = parser.parse_module().err().unwrap();
    assert!(err.0.contains("expected 'big' or 'little' for endianness"));
}

#[test]
fn test_second_endianness_message() {
    let source = "endian = little endian = big";
    let parser = Parser::new(source).unwrap();
    let err = parser.parse_module().err().unwrap();
    assert!(err.0.contains("expected one endianness definition, found a second"));
}

#[test]
fn test_width_overflow_rejected() {
    // Each level doubles the bit width; after enough doublings the total
    // cannot be represented and resolution must fail rather than wrap.
    let mut source = String::from("struct D0 { a u64, }");
    for i in 1..=60 {
        source.push_str(&format!(" struct D{} {{ x D{}, y D{}, }}", i, i - 1, i - 1));
    }
    let parser = Parser::new(&source).unwrap();
    let err = parser.parse_module().err().unwrap();
    assert!(err.0.contains("cannot be represented"));
}
