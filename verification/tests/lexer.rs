use onyx::ast::PrimitiveType;
use onyx::lexer::{Lexer, TokenKind};

#[test]
fn test_keywords_and_symbols() {
    let source = "struct message enum import endian { } , : ; =";
    let mut lexer = Lexer::new(source);

    assert_eq!(lexer.next().unwrap().kind, TokenKind::Struct);
    assert_eq!(lexer.next().unwrap().kind, TokenKind::Message);
    assert_eq!(lexer.next().unwrap().kind, TokenKind::Enum);
    assert_eq!(lexer.next().unwrap().kind, TokenKind::Import);
    assert_eq!(lexer.next().unwrap().kind, TokenKind::Endianness);
    assert_eq!(lexer.next().unwrap().kind, TokenKind::OpenBrace);
    assert_eq!(lexer.next().unwrap().kind, TokenKind::CloseBrace);
    assert_eq!(lexer.next().unwrap().kind, TokenKind::Comma);
    assert_eq!(lexer.next().unwrap().kind, TokenKind::Colon);
    assert_eq!(lexer.next().unwrap().kind, TokenKind::Semicolon);
    assert_eq!(lexer.next().unwrap().kind, TokenKind::Assign);
}

#[test]
fn test_primitives() {
    let source = "u8 u16 u32 u64 i8 i16 i32 i64 f32 f64 bool";
    let mut lexer = Lexer::new(source);

    assert_eq!(lexer.next().unwrap().kind, TokenKind::Primitive(PrimitiveType::U8));
    assert_eq!(lexer.next().unwrap().kind, TokenKind::Primitive(PrimitiveType::U16));
    assert_eq!(lexer.next().unwrap().kind, TokenKind::Primitive(PrimitiveType::U32));
    assert_eq!(lexer.next().unwrap().kind, TokenKind::Primitive(PrimitiveType::U64));
    assert_eq!(lexer.next().unwrap().kind, TokenKind::Primitive(PrimitiveType::I8));
    assert_eq!(lexer.next().unwrap().kind, TokenKind::Primitive(PrimitiveType::I16));
    assert_eq!(lexer.next().unwrap().kind, TokenKind::Primitive(PrimitiveType::I32));
    assert_eq!(lexer.next().unwrap().kind, TokenKind::Primitive(PrimitiveType::I64));
    assert_eq!(lexer.next().unwrap().kind, TokenKind::Primitive(PrimitiveType::F32));
    assert_eq!(lexer.next().unwrap().kind, TokenKind::Primitive(PrimitiveType::F64));
    assert_eq!(lexer.next().unwrap().kind, TokenKind::Primitive(PrimitiveType::Bool));
}

#[test]
fn test_identifiers_and_literals() {
    let source = "MyStruct my_field 123 456";
    let mut lexer = Lexer::new(source);

    match lexer.next().unwrap().kind {
        TokenKind::Identifier(s) => assert_eq!(s, "MyStruct"),
        _ => panic!("Expected identifier"),
    }
    match lexer.next().unwrap().kind {
        TokenKind::Identifier(s) => assert_eq!(s, "my_field"),
        _ => panic!("Expected identifier"),
    }
    assert_eq!(lexer.next().unwrap().kind, TokenKind::LiteralInt(123));
    assert_eq!(lexer.next().unwrap().kind, TokenKind::LiteralInt(456));
}

#[test]
fn test_whitespace_and_position() {
    let source = "a\n  b";
    let mut lexer = Lexer::new(source);

    let token_a = lexer.next().unwrap();
    assert_eq!(token_a.kind, TokenKind::Identifier("a".to_string()));
    assert_eq!(token_a.position.line, 0);
    assert_eq!(token_a.position.span.start, 0);

    let token_b = lexer.next().unwrap();
    assert_eq!(token_b.kind, TokenKind::Identifier("b".to_string()));
    assert_eq!(token_b.position.line, 1);
    assert_eq!(token_b.position.span.start, 2);
}

#[test]
fn test_error_handling() {
    let source = "@";
    let mut lexer = Lexer::new(source);

    match lexer.next().unwrap().kind {
        TokenKind::Error(msg) => assert!(msg.contains("Unrecognized character")),
        _ => panic!("Expected error token"),
    }
}

#[test]
fn test_eof_emitted_once() {
    let source = "a";
    let mut lexer = Lexer::new(source);
    assert_eq!(lexer.next().unwrap().kind, TokenKind::Identifier("a".to_string()));
    assert_eq!(lexer.next().unwrap().kind, TokenKind::Eof);
    assert!(lexer.next().is_none());
    assert!(lexer.next().is_none());
}

#[test]
fn test_empty_source_yields_nothing() {
    let mut lexer = Lexer::new("");
    assert!(lexer.next().is_none());
}

#[test]
fn test_oversized_literal() {
    // Larger than u64::MAX, so the literal cannot be represented.
    let source = "99999999999999999999999999";
    let mut lexer = Lexer::new(source);
    match lexer.next().unwrap().kind {
        TokenKind::Error(msg) => {
            assert!(msg.contains("Invalid or oversized integer literal"));
            assert!(msg.contains("99999999999999999999999999"));
        },
        _ => panic!("Expected error token"),
    }
}

#[test]
fn test_largest_literal() {
    let source = "18446744073709551615";
    let mut lexer = Lexer::new(source);
    assert_eq!(lexer.next().unwrap().kind, TokenKind::LiteralInt(u64::MAX));
}

#[test]
fn test_error_does_not_halt_iteration() {
    let source = "@ struct";
    let mut lexer = Lexer::new(source);
    match lexer.next().unwrap().kind {
        TokenKind::Error(_) => {},
        _ => panic!("Expected error token"),
    }
    assert_eq!(lexer.next().unwrap().kind, TokenKind::Struct);
}

#[test]
fn test_lexing_is_restartable() {
    let source = "struct S { f u8, }";
    let mut first: Vec<onyx::lexer::Token> = Vec::new();
    let mut lexer = Lexer::new(source);
    while let Some(t) = lexer.next() {
        first.push(t);
    }
    let mut second: Vec<onyx::lexer::Token> = Vec::new();
    let mut lexer2 = Lexer::new(source);
    while let Some(t) = lexer2.next() {
        second.push(t);
    }
    assert_eq!(first, second);
}

#[test]
fn test_display_token_in_context() {
    let source = "a\n  b\nc";
    let mut lexer = Lexer::new(source);
    let _a = lexer.next().unwrap();
    let b = lexer.next().unwrap();
    // The window shows the token's line, a caret line underlining the
    // token's span, and the following line.
    let ctx = lexer.display_token_in_context(&b);
    assert_eq!(ctx, "a\n  b\n  ^\nc");
}

#[test]
fn test_position_render_one_indexed() {
    let source = "a\n  b";
    let mut lexer = Lexer::new(source);
    let _a = lexer.next().unwrap();
    let b = lexer.next().unwrap();
    assert_eq!(b.position.render(), "2:3");
}
