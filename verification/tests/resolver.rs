use onyx::ast::{Definition, EnumDef, Field, OnyxModule, PrimitiveType, StructDef, Type};
use onyx::parser::Parser;
use onyx::resolver::resolve_module;

fn parsed(source: &str) -> OnyxModule {
    Parser::new(source).unwrap().parse_module().unwrap()
}

#[test]
fn test_byte_table_simple_struct() {
    let module = parsed("struct S { a u8, b u32, }");
    let table = resolve_module(&module).unwrap();
    let entry = table.get("S").unwrap();
    assert_eq!(entry.bits, 40);
    assert_eq!(entry.bytes, 5); // ceil(40 / 8)
}

#[test]
fn test_byte_table_bit_fields() {
    let module = parsed("struct S { a u8 : 4, b u8 : 3, }");
    let table = resolve_module(&module).unwrap();
    let entry = table.get("S").unwrap();
    assert_eq!(entry.bits, 7);
    assert_eq!(entry.bytes, 1); // ceil(7 / 8)
}

#[test]
fn test_byte_table_enum() {
    let module = parsed("enum E : u16 { A = 1, }");
    let table = resolve_module(&module).unwrap();
    let entry = table.get("E").unwrap();
    assert_eq!(entry.bits, 16);
    assert_eq!(entry.bytes, 2);
}

#[test]
fn test_byte_table_nested() {
    let module = parsed("struct Inner { a u8 : 1, } struct Outer { i Inner, j Inner, b u8, }");
    let table = resolve_module(&module).unwrap();
    assert_eq!(table.get("Inner").unwrap().bits, 1);
    assert_eq!(table.get("Inner").unwrap().bytes, 1);
    assert_eq!(table.get("Outer").unwrap().bits, 10); // 1 + 1 + 8
    assert_eq!(table.get("Outer").unwrap().bytes, 2); // ceil(10 / 8)
}

#[test]
fn test_table_in_dependency_order() {
    let module = parsed("struct A { b B, } struct B { c C, } struct C { f u8, }");
    let table = resolve_module(&module).unwrap();
    let names: Vec<&str> = table.entries.iter().map(|e| e.name.as_str()).collect();
    let pos = |n: &str| names.iter().position(|m| *m == n).unwrap();
    assert!(pos("C") < pos("B"));
    assert!(pos("B") < pos("A"));
    assert_eq!(names.len(), 3);
}

#[test]
fn test_resolver_cycle_error() {
    // The resolver works on hand-built modules too; a cycle is fatal.
    let mut module = OnyxModule::default();
    module.definitions.push(Definition::Struct(StructDef {
        name: "A".to_string(),
        fields: vec![Field {
            name: "b".to_string(),
            type_info: Type::Custom("B".to_string()),
            bit_field_size: None,
        }],
        size: None,
    }));
    module.definitions.push(Definition::Struct(StructDef {
        name: "B".to_string(),
        fields: vec![Field {
            name: "a".to_string(),
            type_info: Type::Custom("A".to_string()),
            bit_field_size: None,
        }],
        size: None,
    }));
    let err = resolve_module(&module).err().unwrap();
    assert!(err.0.contains("Circular dependency detected"));
    assert!(err.0.contains("A"));
    assert!(err.0.contains("B"));
}

#[test]
fn test_resolver_self_cycle_error() {
    let mut module = OnyxModule::default();
    module.definitions.push(Definition::Struct(StructDef {
        name: "A".to_string(),
        fields: vec![Field {
            name: "a".to_string(),
            type_info: Type::Custom("A".to_string()),
            bit_field_size: None,
        }],
        size: None,
    }));
    let err = resolve_module(&module).err().unwrap();
    assert!(err.0.contains("Circular dependency detected: 'A -> A'."));
}

#[test]
fn test_resolver_undefined_error() {
    let mut module = OnyxModule::default();
    module.definitions.push(Definition::Struct(StructDef {
        name: "A".to_string(),
        fields: vec![Field {
            name: "b".to_string(),
            type_info: Type::Custom("Missing".to_string()),
            bit_field_size: None,
        }],
        size: None,
    }));
    let err = resolve_module(&module).err().unwrap();
    assert_eq!(err.0, "Type 'Missing' is used but not defined.");
}

#[test]
fn test_resolver_enum_direct() {
    let mut module = OnyxModule::default();
    module.definitions.push(Definition::Enum(EnumDef {
        name: "E".to_string(),
        underlying_type: PrimitiveType::U64,
        variants: vec![],
    }));
    let table = resolve_module(&module).unwrap();
    assert_eq!(table.get("E").unwrap().bits, 64);
    assert_eq!(table.get("E").unwrap().bytes, 8);
    assert!(table.get("Nope").is_none());
}

#[test]
fn test_resolver_byte_table_matches_parser_sizes() {
    let module = parsed("endian = big struct S { a u16, b u8 : 5, } message M { s S, }");
    let table = resolve_module(&module).unwrap();
    assert_eq!(table.get("S").unwrap().bits, 21);
    assert_eq!(module.get_definition("S").unwrap().size(), Some(21));
    assert_eq!(table.get("S").unwrap().bytes, 3);
    assert_eq!(table.get("M").unwrap().bits, 21);
    assert_eq!(table.get("M").unwrap().bytes, 3);
}
