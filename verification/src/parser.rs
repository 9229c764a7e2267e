//! The parser: single-pass, one-token-lookahead recursive descent over the
//! tokenizer's output. It builds an [`OnyxModule`] — the definitions keyed by
//! name, the declared wire endianness, the declaration order — and then
//! resolves every definition's bit width, producing a fully validated
//! module or a single located error.
//!
//! The grammar is pinned down by recognizer functions over the token
//! sequence ([`module_parse_ok`] and its components) together with matcher
//! functions that say which syntax tree a well-formed token sequence
//! denotes ([`module_defs_match`] and its components).

use vstd::prelude::*;
use vstd::string::*;
use crate::ast::{
    Definition, EnumDef, EnumVariant, Field, MessageDef, OnyxModule, PrimitiveType, StructDef,
    Type, WireEndianness, find_def, find_def_from,
};
use crate::lexer::{
    Lexer, Token, TokenKind, kind_eq_spec, lex_done, lemma_tokens_from_cons,
    lemma_tokens_from_structure, tokens_from,
};
use crate::resolver::{
    ResolveFailure, bits_map, entry_names, has_reference_cycle, has_undefined_reference,
    is_dependency_order, memo_wf, names_of, order_covers, resolve_widths, sizes_complete,
    sizes_consistent, some_width_exceeds,
};
use crate::text::str_eq_str;

verus! {

// ------------------------------------------------------------------
// Grammar recognizers and matchers over the token sequence
// ------------------------------------------------------------------

/// A type reference is a single primitive or identifier token.
pub open spec fn type_ok(toks: Seq<Token>, p: int) -> bool {
    0 <= p < toks.len() && (toks[p].kind is Primitive || toks[p].kind is Identifier)
}

/// Which [`Type`] the token at `p` denotes.
pub open spec fn type_matches(toks: Seq<Token>, p: int, t: Type) -> bool {
    0 <= p < toks.len() && match toks[p].kind {
        TokenKind::Primitive(pr) => t == Type::Primitive(pr),
        TokenKind::Identifier(s) => t matches Type::Custom(c) && c@ == s@,
        _ => false,
    }
}

/// A field: a name, a type, an optional bit-field suffix legal only on
/// primitive types and bounded by their width, and a terminating comma.
pub open spec fn field_ok(toks: Seq<Token>, p: int) -> bool {
    &&& 0 <= p
    &&& p + 2 < toks.len()
    &&& toks[p].kind is Identifier
    &&& type_ok(toks, p + 1)
    &&& if toks[p + 2].kind is Colon {
        &&& toks[p + 1].kind matches TokenKind::Primitive(pr)
        &&& p + 4 < toks.len()
        &&& (toks[p + 3].kind matches TokenKind::LiteralInt(v) && v
            <= toks[p + 1].kind->Primitive_0.spec_bit_width())
        &&& toks[p + 4].kind is Comma
    } else {
        toks[p + 2].kind is Comma
    }
}

/// The position after the field starting at `p`.
pub open spec fn field_end(toks: Seq<Token>, p: int) -> int {
    if 0 <= p && p + 2 < toks.len() && toks[p + 2].kind is Colon {
        p + 5
    } else {
        p + 3
    }
}

/// Which [`Field`] the tokens starting at `p` denote.
pub open spec fn field_matches(toks: Seq<Token>, p: int, f: Field) -> bool {
    &&& field_ok(toks, p)
    &&& (toks[p].kind matches TokenKind::Identifier(s) && f.name@ == s@)
    &&& type_matches(toks, p + 1, f.type_info)
    &&& f.bit_field_size == (if toks[p + 2].kind is Colon {
        Some(toks[p + 3].kind->LiteralInt_0 as usize)
    } else {
        None::<usize>
    })
}

/// A brace-terminated field list: fields repeat until a closing brace.
pub open spec fn fields_ok(toks: Seq<Token>, p: int) -> bool
    decreases toks.len() - p,
{
    if !(0 <= p < toks.len()) {
        false
    } else if toks[p].kind is CloseBrace {
        true
    } else if toks[p].kind is Eof {
        false
    } else {
        field_ok(toks, p) && fields_ok(toks, field_end(toks, p))
    }
}

/// The position after the field list and its closing brace.
pub open spec fn fields_end(toks: Seq<Token>, p: int) -> int
    decreases toks.len() - p,
{
    if !(0 <= p < toks.len()) {
        p
    } else if toks[p].kind is CloseBrace {
        p + 1
    } else if toks[p].kind is Eof {
        p
    } else if field_ok(toks, p) {
        fields_end(toks, field_end(toks, p))
    } else {
        p
    }
}

/// Which field sequence the list starting at `p` denotes.
pub open spec fn fields_match(toks: Seq<Token>, p: int, fs: Seq<Field>) -> bool
    decreases toks.len() - p,
{
    if !(0 <= p < toks.len()) {
        false
    } else if toks[p].kind is CloseBrace {
        fs.len() == 0
    } else if toks[p].kind is Eof {
        false
    } else {
        fs.len() > 0 && field_ok(toks, p) && field_matches(toks, p, fs[0]) && fields_match(
            toks,
            field_end(toks, p),
            fs.drop_first(),
        )
    }
}

/// An enum variant: a name, an optional explicit value, and a comma.
pub open spec fn variant_ok(toks: Seq<Token>, p: int) -> bool {
    &&& 0 <= p
    &&& p + 1 < toks.len()
    &&& toks[p].kind is Identifier
    &&& if toks[p + 1].kind is Assign {
        &&& p + 3 < toks.len()
        &&& toks[p + 2].kind is LiteralInt
        &&& toks[p + 3].kind is Comma
    } else {
        toks[p + 1].kind is Comma
    }
}

/// The position after the variant starting at `p`.
pub open spec fn variant_end(toks: Seq<Token>, p: int) -> int {
    if 0 <= p && p + 1 < toks.len() && toks[p + 1].kind is Assign {
        p + 4
    } else {
        p + 2
    }
}

/// Which [`EnumVariant`] the tokens starting at `p` denote.
pub open spec fn variant_matches(toks: Seq<Token>, p: int, v: EnumVariant) -> bool {
    &&& variant_ok(toks, p)
    &&& (toks[p].kind matches TokenKind::Identifier(s) && v.name@ == s@)
    &&& v.value == (if toks[p + 1].kind is Assign {
        Some(toks[p + 2].kind->LiteralInt_0)
    } else {
        None::<u64>
    })
}

/// A brace-terminated variant list.
pub open spec fn variants_ok(toks: Seq<Token>, p: int) -> bool
    decreases toks.len() - p,
{
    if !(0 <= p < toks.len()) {
        false
    } else if toks[p].kind is CloseBrace {
        true
    } else if toks[p].kind is Eof {
        false
    } else {
        variant_ok(toks, p) && variants_ok(toks, variant_end(toks, p))
    }
}

/// The position after the variant list and its closing brace.
pub open spec fn variants_end(toks: Seq<Token>, p: int) -> int
    decreases toks.len() - p,
{
    if !(0 <= p < toks.len()) {
        p
    } else if toks[p].kind is CloseBrace {
        p + 1
    } else if toks[p].kind is Eof {
        p
    } else if variant_ok(toks, p) {
        variants_end(toks, variant_end(toks, p))
    } else {
        p
    }
}

/// Which variant sequence the list starting at `p` denotes.
pub open spec fn variants_match(toks: Seq<Token>, p: int, vs: Seq<EnumVariant>) -> bool
    decreases toks.len() - p,
{
    if !(0 <= p < toks.len()) {
        false
    } else if toks[p].kind is CloseBrace {
        vs.len() == 0
    } else if toks[p].kind is Eof {
        false
    } else {
        vs.len() > 0 && variant_ok(toks, p) && variant_matches(toks, p, vs[0]) && variants_match(
            toks,
            variant_end(toks, p),
            vs.drop_first(),
        )
    }
}

/// A struct definition: `struct NAME { field* }`.
pub open spec fn struct_ok(toks: Seq<Token>, p: int) -> bool {
    &&& 0 <= p
    &&& p + 2 < toks.len()
    &&& toks[p].kind is Struct
    &&& toks[p + 1].kind is Identifier
    &&& toks[p + 2].kind is OpenBrace
    &&& fields_ok(toks, p + 3)
}

/// A message definition: `message NAME { field* }`.
pub open spec fn message_ok(toks: Seq<Token>, p: int) -> bool {
    &&& 0 <= p
    &&& p + 2 < toks.len()
    &&& toks[p].kind is Message
    &&& toks[p + 1].kind is Identifier
    &&& toks[p + 2].kind is OpenBrace
    &&& fields_ok(toks, p + 3)
}

/// An enum definition: `enum NAME : PRIMITIVE { variant* }`.
pub open spec fn enum_ok(toks: Seq<Token>, p: int) -> bool {
    &&& 0 <= p
    &&& p + 4 < toks.len()
    &&& toks[p].kind is Enum
    &&& toks[p + 1].kind is Identifier
    &&& toks[p + 2].kind is Colon
    &&& toks[p + 3].kind is Primitive
    &&& toks[p + 4].kind is OpenBrace
    &&& variants_ok(toks, p + 5)
}

/// A top-level definition: message, struct or enum.
pub open spec fn def_ok(toks: Seq<Token>, p: int) -> bool {
    0 <= p < toks.len() && match toks[p].kind {
        TokenKind::Message => message_ok(toks, p),
        TokenKind::Struct => struct_ok(toks, p),
        TokenKind::Enum => enum_ok(toks, p),
        _ => false,
    }
}

/// The position after the definition starting at `p`.
pub open spec fn def_end(toks: Seq<Token>, p: int) -> int {
    if 0 <= p < toks.len() {
        match toks[p].kind {
            TokenKind::Message => fields_end(toks, p + 3),
            TokenKind::Struct => fields_end(toks, p + 3),
            TokenKind::Enum => variants_end(toks, p + 5),
            _ => p,
        }
    } else {
        p
    }
}

/// The name the definition starting at `p` declares.
pub open spec fn def_name_at(toks: Seq<Token>, p: int) -> Seq<char> {
    toks[p + 1].kind->Identifier_0@
}

/// Which [`Definition`] the tokens starting at `p` denote; parsed structs
/// and messages carry no size yet.
pub open spec fn def_matches(toks: Seq<Token>, p: int, d: Definition) -> bool {
    &&& def_ok(toks, p)
    &&& match toks[p].kind {
        TokenKind::Message => d matches Definition::Message(m) && m.name@ == def_name_at(toks, p)
            && fields_match(toks, p + 3, m.fields@) && m.size is None,
        TokenKind::Struct => d matches Definition::Struct(s) && s.name@ == def_name_at(toks, p)
            && fields_match(toks, p + 3, s.fields@) && s.size is None,
        TokenKind::Enum => d matches Definition::Enum(e) && e.name@ == def_name_at(toks, p) && (
        toks[p + 3].kind matches TokenKind::Primitive(pr) && e.underlying_type == pr)
            && variants_match(toks, p + 5, e.variants@),
        _ => false,
    }
}

/// A definition list running to the end of input, with no name declared
/// twice: `seen` holds the names declared so far.
pub open spec fn defs_ok(toks: Seq<Token>, p: int, seen: Set<Seq<char>>) -> bool
    decreases toks.len() - p,
    via defs_ok_decreases
{
    if !(0 <= p < toks.len()) {
        false
    } else if toks[p].kind is Eof {
        true
    } else {
        def_ok(toks, p) && !seen.contains(def_name_at(toks, p)) && defs_ok(
            toks,
            def_end(toks, p),
            seen.insert(def_name_at(toks, p)),
        )
    }
}

/// Which definition sequence the list starting at `p` denotes.
pub open spec fn defs_match(toks: Seq<Token>, p: int, ds: Seq<Definition>) -> bool
    decreases toks.len() - p,
    via defs_match_decreases
{
    if !(0 <= p < toks.len()) {
        false
    } else if toks[p].kind is Eof {
        ds.len() == 0
    } else {
        ds.len() > 0 && def_ok(toks, p) && def_matches(toks, p, ds[0]) && defs_match(
            toks,
            def_end(toks, p),
            ds.drop_first(),
        )
    }
}

/// The endianness directive at the start of the module:
/// `endian = big` or `endian = little`.
pub open spec fn endian_ok(toks: Seq<Token>, p: int) -> bool {
    &&& 0 <= p
    &&& p + 2 < toks.len()
    &&& toks[p].kind is Endianness
    &&& toks[p + 1].kind is Assign
    &&& (toks[p + 2].kind matches TokenKind::Identifier(s) && (s@ == "big"@ || s@ == "little"@))
}

/// The endianness the directive at `p` declares.
pub open spec fn endian_value(toks: Seq<Token>, p: int) -> WireEndianness {
    if toks[p + 2].kind matches TokenKind::Identifier(s) && s@ == "big"@ {
        WireEndianness::Big
    } else {
        WireEndianness::Little
    }
}

/// A whole module parses: an optional leading endianness directive followed
/// by definitions with pairwise distinct names, up to the end of input.
pub open spec fn module_parse_ok(toks: Seq<Token>) -> bool {
    toks.len() > 0 && if toks[0].kind is Endianness {
        endian_ok(toks, 0) && defs_ok(toks, 3, Set::empty())
    } else {
        defs_ok(toks, 0, Set::empty())
    }
}

/// The module's declared endianness: little unless declared big.
pub open spec fn module_endianness(toks: Seq<Token>) -> WireEndianness {
    if toks.len() > 0 && toks[0].kind is Endianness {
        endian_value(toks, 0)
    } else {
        WireEndianness::Little
    }
}

/// Which definition sequence the module's token sequence denotes.
pub open spec fn module_defs_match(toks: Seq<Token>, ds: Seq<Definition>) -> bool {
    toks.len() > 0 && if toks[0].kind is Endianness {
        defs_match(toks, 3, ds)
    } else {
        defs_match(toks, 0, ds)
    }
}

// ------------------------------------------------------------------
// Bounds of the recognizers
// ------------------------------------------------------------------

/// A recognized field list ends after its position and within the input.
pub proof fn lemma_fields_end_bounds(toks: Seq<Token>, p: int)
    requires
        fields_ok(toks, p),
    ensures
        p < fields_end(toks, p) <= toks.len(),
    decreases toks.len() - p,
{
    if toks[p].kind is CloseBrace {
    } else {
        lemma_fields_end_bounds(toks, field_end(toks, p));
    }
}

/// A recognized variant list ends after its position and within the input.
pub proof fn lemma_variants_end_bounds(toks: Seq<Token>, p: int)
    requires
        variants_ok(toks, p),
    ensures
        p < variants_end(toks, p) <= toks.len(),
    decreases toks.len() - p,
{
    if toks[p].kind is CloseBrace {
    } else {
        lemma_variants_end_bounds(toks, variant_end(toks, p));
    }
}

/// A recognized definition ends after its position and within the input.
pub proof fn lemma_def_end_bounds(toks: Seq<Token>, p: int)
    requires
        def_ok(toks, p),
    ensures
        p < def_end(toks, p) <= toks.len(),
{
    match toks[p].kind {
        TokenKind::Message => lemma_fields_end_bounds(toks, p + 3),
        TokenKind::Struct => lemma_fields_end_bounds(toks, p + 3),
        TokenKind::Enum => lemma_variants_end_bounds(toks, p + 5),
        _ => (),
    }
}

#[via_fn]
proof fn defs_ok_decreases(toks: Seq<Token>, p: int, seen: Set<Seq<char>>) {
    if 0 <= p < toks.len() && !(toks[p].kind is Eof) && def_ok(toks, p) {
        lemma_def_end_bounds(toks, p);
    }
}

#[via_fn]
proof fn defs_match_decreases(toks: Seq<Token>, p: int, ds: Seq<Definition>) {
    if 0 <= p < toks.len() && !(toks[p].kind is Eof) && def_ok(toks, p) {
        lemma_def_end_bounds(toks, p);
    }
}

// ------------------------------------------------------------------
// The parser
// ------------------------------------------------------------------

/// A simple error type for parsing failures, carrying a rendered message.
#[derive(Debug)]
pub struct ParseError(pub String);

impl ParseError {
    /// The error message.
    pub fn message(&self) -> (r: &str)
        ensures
            r@ == self.0@,
    {
        self.0.as_str()
    }
}

/// The display name of a primitive type keyword.
pub open spec fn spec_prim_name(p: PrimitiveType) -> Seq<char> {
    match p {
        PrimitiveType::Bool => "Bool"@,
        PrimitiveType::U8 => "U8"@,
        PrimitiveType::U16 => "U16"@,
        PrimitiveType::U32 => "U32"@,
        PrimitiveType::U64 => "U64"@,
        PrimitiveType::I8 => "I8"@,
        PrimitiveType::I16 => "I16"@,
        PrimitiveType::I32 => "I32"@,
        PrimitiveType::I64 => "I64"@,
        PrimitiveType::F32 => "F32"@,
        PrimitiveType::F64 => "F64"@,
    }
}

/// The display name of a token kind, used in diagnostics.
pub open spec fn spec_kind_name(k: TokenKind) -> Seq<char> {
    match k {
        TokenKind::Endianness => "Endianness"@,
        TokenKind::Import => "Import"@,
        TokenKind::Message => "Message"@,
        TokenKind::Struct => "Struct"@,
        TokenKind::Enum => "Enum"@,
        TokenKind::Primitive(p) => "Primitive("@ + spec_prim_name(p) + ")"@,
        TokenKind::OpenBrace => "OpenBrace"@,
        TokenKind::CloseBrace => "CloseBrace"@,
        TokenKind::Comma => "Comma"@,
        TokenKind::Colon => "Colon"@,
        TokenKind::Semicolon => "Semicolon"@,
        TokenKind::Assign => "Assign"@,
        TokenKind::Identifier(s) => "Identifier(\""@ + s@ + "\")"@,
        TokenKind::LiteralInt(v) => "LiteralInt("@ + crate::text::spec_decimal(v as nat) + ")"@,
        TokenKind::Eof => "Eof"@,
        TokenKind::Error(m) => "Error(\""@ + m@ + "\")"@,
    }
}

/// Renders the display name of a token kind.
pub fn kind_name(k: &TokenKind) -> (r: String)
    ensures
        r@ == spec_kind_name(*k),
{
    match k {
        TokenKind::Endianness => String::from_str("Endianness"),
        TokenKind::Import => String::from_str("Import"),
        TokenKind::Message => String::from_str("Message"),
        TokenKind::Struct => String::from_str("Struct"),
        TokenKind::Enum => String::from_str("Enum"),
        TokenKind::Primitive(p) => {
            let mut r = String::from_str("Primitive(");
            let name = match p {
                PrimitiveType::Bool => "Bool",
                PrimitiveType::U8 => "U8",
                PrimitiveType::U16 => "U16",
                PrimitiveType::U32 => "U32",
                PrimitiveType::U64 => "U64",
                PrimitiveType::I8 => "I8",
                PrimitiveType::I16 => "I16",
                PrimitiveType::I32 => "I32",
                PrimitiveType::I64 => "I64",
                PrimitiveType::F32 => "F32",
                PrimitiveType::F64 => "F64",
            };
            r.append(name);
            r.append(")");
            r
        },
        TokenKind::OpenBrace => String::from_str("OpenBrace"),
        TokenKind::CloseBrace => String::from_str("CloseBrace"),
        TokenKind::Comma => String::from_str("Comma"),
        TokenKind::Colon => String::from_str("Colon"),
        TokenKind::Semicolon => String::from_str("Semicolon"),
        TokenKind::Assign => String::from_str("Assign"),
        TokenKind::Identifier(s) => {
            let mut r = String::from_str("Identifier(\"");
            r.append(s.as_str());
            r.append("\")");
            r
        },
        TokenKind::LiteralInt(v) => {
            let mut r = String::from_str("LiteralInt(");
            let num = crate::text::u128_to_string(*v as u128);
            r.append(num.as_str());
            r.append(")");
            r
        },
        TokenKind::Eof => String::from_str("Eof"),
        TokenKind::Error(m) => {
            let mut r = String::from_str("Error(\"");
            r.append(m.as_str());
            r.append("\")");
            r
        },
    }
}

/// The `Parser` turns source text into a resolved [`OnyxModule`].
pub struct Parser<'a> {
    lexer: Lexer<'a>,
    tokens: Vec<Token>,
    pos: usize,
    module: OnyxModule,
}

impl<'a> Parser<'a> {
    /// The token sequence being parsed.
    pub closed spec fn spec_tokens(self) -> Seq<Token> {
        self.tokens@
    }

    /// The current token position.
    pub closed spec fn spec_pos(self) -> int {
        self.pos as int
    }

    /// The module under construction.
    pub closed spec fn spec_module(self) -> OnyxModule {
        self.module
    }

    /// The parser's internal consistency: the token sequence is non-empty,
    /// ends with the end-of-file token and contains no other, and the
    /// cursor stays inside it.
    pub closed spec fn wf(self) -> bool {
        &&& self.tokens@.len() > 0
        &&& self.pos < self.tokens@.len()
        &&& self.tokens@.last().kind is Eof
        &&& forall|i: int| 0 <= i < self.tokens@.len() - 1 ==> !((#[trigger] self.tokens@[i].kind)
            is Eof)
        &&& self.lexer.wf()
    }

    /// Creates a parser by tokenizing the whole source and positioning the
    /// cursor on the first token. An empty source — one with no tokens at
    /// all — is rejected here, before any parsing.
    pub fn new(source: &'a str) -> (r: Result<Self, ParseError>)
        ensures
            match r {
                Ok(p) => {
                    &&& p.wf()
                    &&& p.spec_pos() == 0
                    &&& tokens_from(source@, 0, 0, 0, false, p.spec_tokens())
                    &&& source@.len() > 0
                    &&& p.spec_module().definitions@.len() == 0
                    &&& p.spec_module().endianness == WireEndianness::Little
                    &&& p.spec_module().order@.len() == 0
                },
                Err(_) => source@.len() == 0,
            },
    {
        let mut lexer = Lexer::new(source);
        let mut tokens: Vec<Token> = Vec::new();
        loop
            invariant
                lexer.wf(),
                lexer.spec_src() == source@,
                0 <= lexer.spec_pos() <= source@.len(),
                forall|rest: Seq<Token>|
                    tokens_from(
                        source@,
                        lexer.spec_pos(),
                        lexer.spec_line(),
                        lexer.spec_col(),
                        lexer.spec_eof(),
                        rest,
                    ) ==> #[trigger] tokens_from(source@, 0, 0, 0, false, tokens@ + rest),
            ensures
                lexer.wf(),
                lexer.spec_src() == source@,
                lex_done(source@, lexer.spec_eof()),
                forall|rest: Seq<Token>|
                    tokens_from(
                        source@,
                        lexer.spec_pos(),
                        lexer.spec_line(),
                        lexer.spec_col(),
                        lexer.spec_eof(),
                        rest,
                    ) ==> #[trigger] tokens_from(source@, 0, 0, 0, false, tokens@ + rest),
            decreases (source@.len() - lexer.spec_pos()) * 2 + (if lexer.spec_eof() {
                0int
            } else {
                1int
            }),
        {
            let ghost pre = lexer;
            match lexer.next() {
                Some(t) => {
                    let ghost toks_pre = tokens@;
                    tokens.push(t);
                    proof {
                        crate::lexer::lemma_step_progress(
                            source@,
                            pre.spec_pos(),
                            pre.spec_line(),
                            pre.spec_col(),
                        );
                        assert forall|rest: Seq<Token>|
                            tokens_from(
                                source@,
                                lexer.spec_pos(),
                                lexer.spec_line(),
                                lexer.spec_col(),
                                lexer.spec_eof(),
                                rest,
                            ) implies #[trigger] tokens_from(
                            source@,
                            0,
                            0,
                            0,
                            false,
                            tokens@ + rest,
                        ) by {
                            lemma_tokens_from_cons(
                                source@,
                                pre.spec_pos(),
                                pre.spec_line(),
                                pre.spec_col(),
                                t,
                                rest,
                            );
                            assert(toks_pre + (seq![t] + rest) =~= tokens@ + rest);
                            assert(tokens_from(
                                source@,
                                pre.spec_pos(),
                                pre.spec_line(),
                                pre.spec_col(),
                                false,
                                seq![t] + rest,
                            ));
                        }
                    }
                },
                None => {
                    break ;
                },
            }
        }
        proof {
            assert(tokens_from(
                source@,
                lexer.spec_pos(),
                lexer.spec_line(),
                lexer.spec_col(),
                lexer.spec_eof(),
                Seq::<Token>::empty(),
            ));
            assert(tokens@ + Seq::<Token>::empty() =~= tokens@);
            assert(tokens_from(source@, 0, 0, 0, false, tokens@));
            if source@.len() > 0 {
                lemma_tokens_from_structure(source@, 0, 0, 0, tokens@);
            }
        }
        if tokens.len() == 0 {
            return Err(ParseError(String::from_str("Empty source file.")));
        }
        Ok(
            Parser {
                lexer,
                tokens,
                pos: 0,
                module: OnyxModule {
                    definitions: Vec::new(),
                    endianness: WireEndianness::Little,
                    order: Vec::new(),
                },
            },
        )
    }

    /// Advances to the next token, staying on the final end-of-file token.
    fn advance(&mut self)
        requires
            old(self).wf(),
        ensures
            final(self).wf(),
            final(self).spec_tokens() == old(self).spec_tokens(),
            final(self).spec_module() == old(self).spec_module(),
            final(self).lexer == old(self).lexer,
            final(self).spec_pos() == if old(self).spec_pos() + 1 < old(
                self,
            ).spec_tokens().len() {
                old(self).spec_pos() + 1
            } else {
                old(self).spec_pos()
            },
    {
        if self.pos < self.tokens.len() - 1 {
            self.pos = self.pos + 1;
        }
    }

    /// Builds a located parse error: the message, the position of the
    /// current token, and a rendered source-context window.
    fn err_here(&self, msg: String) -> (r: ParseError)
        requires
            self.wf(),
        ensures
            r.0@ == msg@ + " at position "@ + crate::text::spec_decimal(
                self.spec_tokens()[self.spec_pos()].position.line as nat + 1,
            ) + ":"@ + crate::text::spec_decimal(
                self.spec_tokens()[self.spec_pos()].position.span.start as nat + 1,
            ) + "\n"@ + crate::lexer::spec_render_context(
                self.lexer.spec_src(),
                self.lexer.spec_line_starts(),
                self.spec_tokens()[self.spec_pos()],
            ),
    {
        let mut m = msg;
        m.append(" at position ");
        let posn = self.tokens[self.pos].position.render();
        m.append(posn.as_str());
        m.append("\n");
        let ctx = self.lexer.display_token_in_context(&self.tokens[self.pos]);
        m.append(ctx.as_str());
        ParseError(m)
    }

    /// Checks that the current token matches the expected kind, consumes it
    /// and advances; otherwise reports a located error.
    fn consume(&mut self, expected: TokenKind) -> (r: Result<(), ParseError>)
        requires
            old(self).wf(),
        ensures
            final(self).wf(),
            final(self).spec_tokens() == old(self).spec_tokens(),
            final(self).spec_module() == old(self).spec_module(),
            final(self).lexer == old(self).lexer,
            match r {
                Ok(_) => {
                    &&& kind_eq_spec(
                        old(self).spec_tokens()[old(self).spec_pos()].kind,
                        expected,
                    )
                    &&& final(self).spec_pos() == if old(self).spec_pos() + 1 < old(
                        self,
                    ).spec_tokens().len() {
                        old(self).spec_pos() + 1
                    } else {
                        old(self).spec_pos()
                    }
                },
                Err(_) => {
                    &&& !kind_eq_spec(
                        old(self).spec_tokens()[old(self).spec_pos()].kind,
                        expected,
                    )
                    &&& final(self).spec_pos() == old(self).spec_pos()
                },
            },
    {
        if self.tokens[self.pos].kind == expected {
            self.advance();
            Ok(())
        } else {
            let mut msg = String::from_str("expected ");
            let en = kind_name(&expected);
            msg.append(en.as_str());
            msg.append(", found ");
            let fn_ = kind_name(&self.tokens[self.pos].kind);
            msg.append(fn_.as_str());
            Err(self.err_here(msg))
        }
    }
}

impl<'a> Parser<'a> {
    /// Parses a custom or primitive type name.
    fn parse_type(&mut self) -> (r: Result<Type, ParseError>)
        requires
            old(self).wf(),
        ensures
            final(self).wf(),
            final(self).spec_tokens() == old(self).spec_tokens(),
            final(self).spec_module() == old(self).spec_module(),
            final(self).lexer == old(self).lexer,
            match r {
                Ok(t) => {
                    &&& type_ok(old(self).spec_tokens(), old(self).spec_pos())
                    &&& type_matches(old(self).spec_tokens(), old(self).spec_pos(), t)
                    &&& final(self).spec_pos() == old(self).spec_pos() + 1
                    &&& final(self).spec_pos() < old(self).spec_tokens().len()
                },
                Err(_) => {
                    &&& !type_ok(old(self).spec_tokens(), old(self).spec_pos())
                    &&& final(self).spec_pos() == old(self).spec_pos()
                },
            },
    {
        match &self.tokens[self.pos].kind {
            TokenKind::Primitive(val) => {
                let t = Type::Primitive(*val);
                self.advance();
                Ok(t)
            },
            TokenKind::Identifier(name) => {
                let t = Type::Custom(name.clone());
                self.advance();
                Ok(t)
            },
            _ => {
                let mut msg = String::from_str("expected a type name, found ");
                let found = kind_name(&self.tokens[self.pos].kind);
                msg.append(found.as_str());
                Err(self.err_here(msg))
            },
        }
    }

    /// Extracts a primitive type from the current token (used for the
    /// underlying type of an enum).
    fn parse_primitive_type(&mut self) -> (r: Result<PrimitiveType, ParseError>)
        requires
            old(self).wf(),
        ensures
            final(self).wf(),
            final(self).spec_tokens() == old(self).spec_tokens(),
            final(self).spec_module() == old(self).spec_module(),
            final(self).lexer == old(self).lexer,
            match r {
                Ok(pt) => {
                    &&& old(self).spec_tokens()[old(self).spec_pos()].kind
                        == TokenKind::Primitive(pt)
                    &&& final(self).spec_pos() == old(self).spec_pos() + 1
                    &&& final(self).spec_pos() < old(self).spec_tokens().len()
                },
                Err(_) => {
                    &&& !(old(self).spec_tokens()[old(self).spec_pos()].kind is Primitive)
                    &&& final(self).spec_pos() == old(self).spec_pos()
                },
            },
    {
        match &self.tokens[self.pos].kind {
            TokenKind::Primitive(val) => {
                let pt = *val;
                self.advance();
                Ok(pt)
            },
            _ => {
                let mut msg = String::from_str("expected a numeric primitive type, found ");
                let found = kind_name(&self.tokens[self.pos].kind);
                msg.append(found.as_str());
                Err(self.err_here(msg))
            },
        }
    }

    /// Consumes an identifier token and returns its string value.
    fn consume_identifier(&mut self) -> (r: Result<String, ParseError>)
        requires
            old(self).wf(),
        ensures
            final(self).wf(),
            final(self).spec_tokens() == old(self).spec_tokens(),
            final(self).spec_module() == old(self).spec_module(),
            final(self).lexer == old(self).lexer,
            match r {
                Ok(name) => {
                    &&& old(self).spec_tokens()[old(self).spec_pos()].kind matches
                        TokenKind::Identifier(s) && name@ == s@
                    &&& final(self).spec_pos() == old(self).spec_pos() + 1
                    &&& final(self).spec_pos() < old(self).spec_tokens().len()
                },
                Err(_) => {
                    &&& !(old(self).spec_tokens()[old(self).spec_pos()].kind is Identifier)
                    &&& final(self).spec_pos() == old(self).spec_pos()
                },
            },
    {
        match &self.tokens[self.pos].kind {
            TokenKind::Identifier(id) => {
                let name = id.clone();
                self.advance();
                Ok(name)
            },
            _ => {
                let mut msg = String::from_str("Expected an identifier, found ");
                let found = kind_name(&self.tokens[self.pos].kind);
                msg.append(found.as_str());
                Err(self.err_here(msg))
            },
        }
    }

    /// Parses one field of a struct or message, with its optional bit-field
    /// suffix, up to and including the terminating comma.
    fn parse_field(&mut self) -> (r: Result<Field, ParseError>)
        requires
            old(self).wf(),
        ensures
            final(self).wf(),
            final(self).spec_tokens() == old(self).spec_tokens(),
            final(self).spec_module() == old(self).spec_module(),
            final(self).lexer == old(self).lexer,
            match r {
                Ok(f) => {
                    &&& field_ok(old(self).spec_tokens(), old(self).spec_pos())
                    &&& field_matches(old(self).spec_tokens(), old(self).spec_pos(), f)
                    &&& final(self).spec_pos() == field_end(
                        old(self).spec_tokens(),
                        old(self).spec_pos(),
                    )
                    &&& final(self).spec_pos() < old(self).spec_tokens().len()
                    &&& final(self).spec_pos() > old(self).spec_pos()
                },
                Err(_) => !field_ok(old(self).spec_tokens(), old(self).spec_pos()),
            },
    {
        let ghost toks = self.spec_tokens();
        let ghost p0 = self.spec_pos();
        let name = self.consume_identifier()?;
        let type_info = self.parse_type()?;
        // Optional bit-field suffix.
        let bit_field_size: Option<usize> = if self.tokens[self.pos].kind == TokenKind::Colon {
            self.advance();
            match &type_info {
                Type::Primitive(p) => {
                    match &self.tokens[self.pos].kind {
                        TokenKind::LiteralInt(size) => {
                            let size = *size;
                            let max_bit_width = p.get_bit_width();
                            if size <= max_bit_width as u64 {
                                self.advance();
                                Some(size as usize)
                            } else {
                                let mut msg = String::from_str("bit-field size ");
                                let sz = crate::text::u128_to_string(size as u128);
                                msg.append(sz.as_str());
                                msg.append(" exceeds type ");
                                let tn = kind_name(&TokenKind::Primitive(*p));
                                msg.append(tn.as_str());
                                msg.append("'s width of ");
                                let wd = crate::text::u128_to_string(max_bit_width as u128);
                                msg.append(wd.as_str());
                                msg.append(" bits");
                                return Err(self.err_here(msg));
                            }
                        },
                        _ => {
                            let mut msg = String::from_str(
                                "expected integer literal for bit-field size, found ",
                            );
                            let found = kind_name(&self.tokens[self.pos].kind);
                            msg.append(found.as_str());
                            return Err(self.err_here(msg));
                        },
                    }
                },
                _ => {
                    let mut msg = String::from_str(
                        "expected integer literal for bit-field size, found ",
                    );
                    let found = kind_name(&self.tokens[self.pos].kind);
                    msg.append(found.as_str());
                    return Err(self.err_here(msg));
                },
            }
        } else {
            None
        };
        self.consume(TokenKind::Comma)?;
        Ok(Field { name, type_info, bit_field_size })
    }
}

/// The body of a struct or message: an open brace, fields, a close brace.
pub open spec fn body_ok(toks: Seq<Token>, p: int) -> bool {
    0 <= p < toks.len() && toks[p].kind is OpenBrace && fields_ok(toks, p + 1)
}

impl<'a> Parser<'a> {
    /// Parses the brace-delimited field list of a struct or message.
    fn parse_struct_body(&mut self) -> (r: Result<Vec<Field>, ParseError>)
        requires
            old(self).wf(),
        ensures
            final(self).wf(),
            final(self).spec_tokens() == old(self).spec_tokens(),
            final(self).spec_module() == old(self).spec_module(),
            final(self).lexer == old(self).lexer,
            match r {
                Ok(fs) => {
                    &&& body_ok(old(self).spec_tokens(), old(self).spec_pos())
                    &&& fields_match(old(self).spec_tokens(), old(self).spec_pos() + 1, fs@)
                    &&& final(self).spec_pos() == fields_end(
                        old(self).spec_tokens(),
                        old(self).spec_pos() + 1,
                    )
                    &&& final(self).spec_pos() < old(self).spec_tokens().len()
                    &&& final(self).spec_pos() > old(self).spec_pos()
                },
                Err(_) => !body_ok(old(self).spec_tokens(), old(self).spec_pos()),
            },
    {
        let ghost toks = self.spec_tokens();
        let ghost p0 = self.spec_pos();
        let ghost p1 = p0 + 1;
        self.consume(TokenKind::OpenBrace)?;
        let mut fields: Vec<Field> = Vec::new();
        while !matches!(self.tokens[self.pos].kind, TokenKind::CloseBrace | TokenKind::Eof)
            invariant
                self.wf(),
                self.spec_tokens() == toks,
                self.spec_module() == old(self).spec_module(),
                self.lexer == old(self).lexer,
                toks == old(self).spec_tokens(),
                p0 == old(self).spec_pos(),
                p1 == p0 + 1,
                p1 <= self.spec_pos() < toks.len(),
                fields_ok(toks, self.spec_pos()) <==> fields_ok(toks, p1),
                fields_end(toks, p1) == fields_end(toks, self.spec_pos()),
                forall|fs2: Seq<Field>|
                    fields_match(toks, self.spec_pos(), fs2) ==> #[trigger] fields_match(
                        toks,
                        p1,
                        fields@ + fs2,
                    ),
            decreases toks.len() - self.spec_pos(),
        {
            let ghost p_prev = self.spec_pos();
            let ghost fields_prev = fields@;
            let f = self.parse_field()?;
            fields.push(f);
            proof {
                let ghost f_g = f;
                assert forall|fs2: Seq<Field>|
                    fields_match(toks, self.spec_pos(), fs2) implies #[trigger] fields_match(
                    toks,
                    p1,
                    fields@ + fs2,
                ) by {
                    let combined = seq![f_g] + fs2;
                    assert(combined[0] == f_g);
                    assert(combined.drop_first() =~= fs2);
                    assert(fields_match(toks, p_prev, combined));
                    assert(fields_prev + combined =~= fields@ + fs2);
                }
            }
        }
        proof {
            if self.spec_tokens()[self.spec_pos()].kind is Eof {
                assert(!fields_ok(toks, self.spec_pos()));
            }
        }
        let ghost p_close = self.spec_pos();
        self.consume(TokenKind::CloseBrace)?;
        proof {
            assert(fields_ok(toks, p_close));
            assert(fields_match(toks, p_close, Seq::<Field>::empty()));
            assert(fields@ + Seq::<Field>::empty() =~= fields@);
            assert(fields_end(toks, p_close) == p_close + 1);
        }
        Ok(fields)
    }

    /// Parses a message definition.
    fn parse_message(&mut self) -> (r: Result<Definition, ParseError>)
        requires
            old(self).wf(),
        ensures
            final(self).wf(),
            final(self).spec_tokens() == old(self).spec_tokens(),
            final(self).spec_module() == old(self).spec_module(),
            final(self).lexer == old(self).lexer,
            match r {
                Ok(d) => {
                    &&& message_ok(old(self).spec_tokens(), old(self).spec_pos())
                    &&& def_matches(old(self).spec_tokens(), old(self).spec_pos(), d)
                    &&& final(self).spec_pos() == def_end(
                        old(self).spec_tokens(),
                        old(self).spec_pos(),
                    )
                    &&& final(self).spec_pos() < old(self).spec_tokens().len()
                    &&& final(self).spec_pos() > old(self).spec_pos()
                },
                Err(_) => !message_ok(old(self).spec_tokens(), old(self).spec_pos()),
            },
    {
        self.consume(TokenKind::Message)?;
        let name = self.consume_identifier()?;
        let fields = self.parse_struct_body()?;
        Ok(Definition::Message(MessageDef { name, fields, size: None }))
    }

    /// Parses a struct definition.
    fn parse_struct(&mut self) -> (r: Result<Definition, ParseError>)
        requires
            old(self).wf(),
        ensures
            final(self).wf(),
            final(self).spec_tokens() == old(self).spec_tokens(),
            final(self).spec_module() == old(self).spec_module(),
            final(self).lexer == old(self).lexer,
            match r {
                Ok(d) => {
                    &&& struct_ok(old(self).spec_tokens(), old(self).spec_pos())
                    &&& def_matches(old(self).spec_tokens(), old(self).spec_pos(), d)
                    &&& final(self).spec_pos() == def_end(
                        old(self).spec_tokens(),
                        old(self).spec_pos(),
                    )
                    &&& final(self).spec_pos() < old(self).spec_tokens().len()
                    &&& final(self).spec_pos() > old(self).spec_pos()
                },
                Err(_) => !struct_ok(old(self).spec_tokens(), old(self).spec_pos()),
            },
    {
        self.consume(TokenKind::Struct)?;
        let name = self.consume_identifier()?;
        let fields = self.parse_struct_body()?;
        Ok(Definition::Struct(StructDef { name, fields, size: None }))
    }

    /// Parses an enum definition, including its underlying primitive type
    /// and its comma-terminated variants.
    fn parse_enum(&mut self) -> (r: Result<Definition, ParseError>)
        requires
            old(self).wf(),
        ensures
            final(self).wf(),
            final(self).spec_tokens() == old(self).spec_tokens(),
            final(self).spec_module() == old(self).spec_module(),
            final(self).lexer == old(self).lexer,
            match r {
                Ok(d) => {
                    &&& enum_ok(old(self).spec_tokens(), old(self).spec_pos())
                    &&& def_matches(old(self).spec_tokens(), old(self).spec_pos(), d)
                    &&& final(self).spec_pos() == def_end(
                        old(self).spec_tokens(),
                        old(self).spec_pos(),
                    )
                    &&& final(self).spec_pos() < old(self).spec_tokens().len()
                    &&& final(self).spec_pos() > old(self).spec_pos()
                },
                Err(_) => !enum_ok(old(self).spec_tokens(), old(self).spec_pos()),
            },
    {
        let ghost toks = self.spec_tokens();
        let ghost p0 = self.spec_pos();
        self.consume(TokenKind::Enum)?;
        let name = self.consume_identifier()?;
        self.consume(TokenKind::Colon)?;
        let underlying_type = self.parse_primitive_type()?;
        self.consume(TokenKind::OpenBrace)?;
        let ghost p1 = p0 + 5;
        let mut variants: Vec<EnumVariant> = Vec::new();
        while !matches!(self.tokens[self.pos].kind, TokenKind::CloseBrace | TokenKind::Eof)
            invariant
                self.wf(),
                self.spec_tokens() == toks,
                self.spec_module() == old(self).spec_module(),
                self.lexer == old(self).lexer,
                toks == old(self).spec_tokens(),
                p0 == old(self).spec_pos(),
                p1 == p0 + 5,
                p1 <= self.spec_pos() < toks.len(),
                variants_ok(toks, self.spec_pos()) <==> variants_ok(toks, p1),
                variants_end(toks, p1) == variants_end(toks, self.spec_pos()),
                forall|vs2: Seq<EnumVariant>|
                    variants_match(toks, self.spec_pos(), vs2) ==> #[trigger] variants_match(
                        toks,
                        p1,
                        variants@ + vs2,
                    ),
            decreases toks.len() - self.spec_pos(),
        {
            let ghost p_prev = self.spec_pos();
            let ghost variants_prev = variants@;
            let variant_name = self.consume_identifier()?;
            let mut value: Option<u64> = None;
            if self.tokens[self.pos].kind == TokenKind::Assign {
                self.advance();
                match &self.tokens[self.pos].kind {
                    TokenKind::LiteralInt(v) => {
                        value = Some(*v);
                        self.advance();
                    },
                    _ => {
                        let mut msg = String::from_str(
                            "expected integer literal for enum assignment, found ",
                        );
                        let found = kind_name(&self.tokens[self.pos].kind);
                        msg.append(found.as_str());
                        return Err(self.err_here(msg));
                    },
                }
            }
            self.consume(TokenKind::Comma)?;
            let v = EnumVariant { name: variant_name, value };
            variants.push(v);
            proof {
                let ghost v_g = v;
                assert(variant_matches(toks, p_prev, v_g));
                assert(self.spec_pos() == variant_end(toks, p_prev));
                assert forall|vs2: Seq<EnumVariant>|
                    variants_match(toks, self.spec_pos(), vs2) implies #[trigger] variants_match(
                    toks,
                    p1,
                    variants@ + vs2,
                ) by {
                    let combined = seq![v_g] + vs2;
                    assert(combined[0] == v_g);
                    assert(combined.drop_first() =~= vs2);
                    assert(variants_match(toks, p_prev, combined));
                    assert(variants_prev + combined =~= variants@ + vs2);
                }
            }
        }
        proof {
            if self.spec_tokens()[self.spec_pos()].kind is Eof {
                assert(!variants_ok(toks, self.spec_pos()));
            }
        }
        let ghost p_close = self.spec_pos();
        self.consume(TokenKind::CloseBrace)?;
        proof {
            assert(variants_ok(toks, p_close));
            assert(variants_match(toks, p_close, Seq::<EnumVariant>::empty()));
            assert(variants@ + Seq::<EnumVariant>::empty() =~= variants@);
        }
        Ok(Definition::Enum(EnumDef { name, underlying_type, variants }))
    }

    /// Parses one top-level definition: a message, struct or enum.
    fn parse_definition(&mut self) -> (r: Result<Definition, ParseError>)
        requires
            old(self).wf(),
        ensures
            final(self).wf(),
            final(self).spec_tokens() == old(self).spec_tokens(),
            final(self).spec_module() == old(self).spec_module(),
            final(self).lexer == old(self).lexer,
            match r {
                Ok(d) => {
                    &&& def_ok(old(self).spec_tokens(), old(self).spec_pos())
                    &&& def_matches(old(self).spec_tokens(), old(self).spec_pos(), d)
                    &&& final(self).spec_pos() == def_end(
                        old(self).spec_tokens(),
                        old(self).spec_pos(),
                    )
                    &&& final(self).spec_pos() < old(self).spec_tokens().len()
                    &&& final(self).spec_pos() > old(self).spec_pos()
                },
                Err(_) => !def_ok(old(self).spec_tokens(), old(self).spec_pos()),
            },
    {
        match &self.tokens[self.pos].kind {
            TokenKind::Message => self.parse_message(),
            TokenKind::Struct => self.parse_struct(),
            TokenKind::Enum => self.parse_enum(),
            _ => {
                let mut msg = String::from_str("expected 'message', 'struct', or 'enum', found ");
                let found = kind_name(&self.tokens[self.pos].kind);
                msg.append(found.as_str());
                Err(self.err_here(msg))
            },
        }
    }
}

// ------------------------------------------------------------------
// Resolution glue: writing sizes back into the module
// ------------------------------------------------------------------

/// The definition with any stored size removed.
pub open spec fn strip_size(d: Definition) -> Definition {
    match d {
        Definition::Struct(s) => Definition::Struct(
            StructDef { name: s.name, fields: s.fields, size: None },
        ),
        Definition::Message(m) => Definition::Message(
            MessageDef { name: m.name, fields: m.fields, size: None },
        ),
        Definition::Enum(e) => Definition::Enum(e),
    }
}

/// The definition with its size set from the assignment `s`.
pub open spec fn with_size(d: Definition, s: Map<Seq<char>, nat>) -> Definition {
    match d {
        Definition::Struct(st) => Definition::Struct(
            StructDef { name: st.name, fields: st.fields, size: Some(s[st.name@] as usize) },
        ),
        Definition::Message(m) => Definition::Message(
            MessageDef { name: m.name, fields: m.fields, size: Some(s[m.name@] as usize) },
        ),
        Definition::Enum(e) => Definition::Enum(e),
    }
}

/// The size assignment a resolved module stores: each defined name maps to
/// the stored bit width of its definition.
pub open spec fn stored_sizes(defs: Seq<Definition>) -> Map<Seq<char>, nat> {
    Map::new(
        |n: Seq<char>| find_def(defs, n) is Some,
        |n: Seq<char>| find_def(defs, n)->Some_0.spec_size()->Some_0 as nat,
    )
}

/// The set of names defined in a module.
pub open spec fn def_names(defs: Seq<Definition>) -> Set<Seq<char>> {
    Set::new(|n: Seq<char>| find_def(defs, n) is Some)
}

/// Appending a definition leaves all lookups of other names, and all
/// lookups that already succeeded, unchanged.
pub proof fn lemma_find_def_push(defs: Seq<Definition>, d: Definition, n: Seq<char>, i: int)
    requires
        0 <= i <= defs.len(),
    ensures
        find_def_from(defs.push(d), n, i) == if find_def_from(defs, n, i) is Some {
            find_def_from(defs, n, i)
        } else if d.spec_name() == n {
            Some(d)
        } else {
            None::<Definition>
        },
    decreases defs.len() - i,
{
    if i < defs.len() {
        assert(defs.push(d)[i] == defs[i]);
        lemma_find_def_push(defs, d, n, i + 1);
    } else {
        assert(defs.push(d)[i] == d);
        if d.spec_name() != n {
            assert(find_def_from(defs.push(d), n, i + 1) is None);
        }
    }
}

/// Setting sizes does not change which definition a name resolves to, up to
/// the size field itself.
pub proof fn lemma_find_def_sized(
    defs: Seq<Definition>,
    s: Map<Seq<char>, nat>,
    n: Seq<char>,
    i: int,
)
    requires
        0 <= i <= defs.len(),
    ensures
        find_def_from(defs.map_values(|d: Definition| with_size(d, s)), n, i) == match
            find_def_from(defs, n, i) {
            Some(d) => Some(with_size(d, s)),
            None => None::<Definition>,
        },
    decreases defs.len() - i,
{
    let sized = defs.map_values(|d: Definition| with_size(d, s));
    if i < defs.len() {
        assert(sized[i] == with_size(defs[i], s));
        assert(with_size(defs[i], s).spec_name() == defs[i].spec_name());
        lemma_find_def_sized(defs, s, n, i + 1);
    }
}

impl<'a> Parser<'a> {
    /// Parses the endianness directive `endian = big` or `endian = little`.
    fn parse_endianness_directive(&mut self) -> (r: Result<WireEndianness, ParseError>)
        requires
            old(self).wf(),
        ensures
            final(self).wf(),
            final(self).spec_tokens() == old(self).spec_tokens(),
            final(self).spec_module() == old(self).spec_module(),
            final(self).lexer == old(self).lexer,
            match r {
                Ok(e) => {
                    &&& endian_ok(old(self).spec_tokens(), old(self).spec_pos())
                    &&& e == endian_value(old(self).spec_tokens(), old(self).spec_pos())
                    &&& final(self).spec_pos() == old(self).spec_pos() + 3
                    &&& final(self).spec_pos() < old(self).spec_tokens().len()
                },
                Err(_) => !endian_ok(old(self).spec_tokens(), old(self).spec_pos()),
            },
    {
        self.consume(TokenKind::Endianness)?;
        self.consume(TokenKind::Assign)?;
        match &self.tokens[self.pos].kind {
            TokenKind::Identifier(s) => {
                if str_eq_str(s.as_str(), "big") {
                    self.advance();
                    Ok(WireEndianness::Big)
                } else if str_eq_str(s.as_str(), "little") {
                    self.advance();
                    Ok(WireEndianness::Little)
                } else {
                    let mut msg = String::from_str(
                        "expected 'big' or 'little' for endianness, found '",
                    );
                    msg.append(s.as_str());
                    msg.append("'");
                    Err(self.err_here(msg))
                }
            },
            _ => {
                let mut msg = String::from_str(
                    "expected 'big' or 'little' for endianness, found ",
                );
                let found = kind_name(&self.tokens[self.pos].kind);
                msg.append(found.as_str());
                Err(self.err_here(msg))
            },
        }
    }

    /// Resolves the parsed module: computes every definition's bit width,
    /// writes it back, and records the dependency order.
    fn resolve_module(self) -> (r: Result<OnyxModule, ParseError>)
        requires
            self.wf(),
        ensures
            match r {
                Ok(m) => {
                    let odefs = self.spec_module().definitions@;
                    &&& m.definitions@ == odefs.map_values(
                        |d: Definition| with_size(d, stored_sizes(m.definitions@)),
                    )
                    &&& m.definitions@.map_values(|d: Definition| strip_size(d))
                        == odefs.map_values(|d: Definition| strip_size(d))
                    &&& m.endianness == self.spec_module().endianness
                    &&& sizes_consistent(m.definitions@, stored_sizes(m.definitions@))
                    &&& is_dependency_order(m.definitions@, names_of(m.order@))
                    &&& names_of(m.order@).no_duplicates()
                    &&& order_covers(m.definitions@, names_of(m.order@))
                    &&& forall|i: int|
                        0 <= i < m.definitions@.len() ==> (#[trigger] m.definitions@[i]).spec_size()
                            is Some
                },
                Err(_) => has_reference_cycle(self.spec_module().definitions@)
                    || has_undefined_reference(self.spec_module().definitions@)
                    || some_width_exceeds(self.spec_module().definitions@),
            },
    {
        let mut this = self;
        let ghost odefs = this.module.definitions@;
        let table = match resolve_widths(&this.module) {
            Ok(t) => t,
            Err(f) => {
                let msg = match &f {
                    ResolveFailure::Cycle(chain) => {
                        let mut m = String::from_str("circular dependency detected: '");
                        m.append(crate::resolver::join_arrow(chain).as_str());
                        m.append("'.");
                        m
                    },
                    ResolveFailure::Undefined(nm) => {
                        let mut m = String::from_str("custom type '");
                        m.append(nm.as_str());
                        m.append("' not defined");
                        m
                    },
                    ResolveFailure::TooLarge(nm) => {
                        let mut m = String::from_str("definition '");
                        m.append(nm.as_str());
                        m.append("' has a bit width that cannot be represented");
                        m
                    },
                };
                return Err(ParseError(msg));
            },
        };
        let ghost bm = bits_map(table.entries@);
        // Write the computed bit widths back into the definitions.
        let mut new_defs: Vec<Definition> = Vec::new();
        while this.module.definitions.len() > 0
            invariant
                memo_wf(odefs, table.entries@),
                sizes_complete(odefs, bits_map(table.entries@)),
                bm == bits_map(table.entries@),
                new_defs@.len() + this.module.definitions@.len() == odefs.len(),
                this.module.endianness == self.spec_module().endianness,
                this.module.definitions@ =~= odefs.subrange(
                    new_defs@.len() as int,
                    odefs.len() as int,
                ),
                new_defs@ =~= odefs.subrange(0, new_defs@.len() as int).map_values(
                    |d: Definition| with_size(d, bm),
                ),
            decreases this.module.definitions@.len(),
        {
            let ghost k = new_defs@.len() as int;
            let d = this.module.definitions.remove(0);
            proof {
                assert(d == odefs[k]);
                assert(this.module.definitions@ =~= odefs.subrange(k + 1, odefs.len() as int));
                crate::resolver::lemma_find_def_covers(odefs, k, 0);
                crate::ast::lemma_find_def_name(odefs, odefs[k].spec_name(), 0);
                assert(find_def(odefs, d.spec_name()) is Some);
                assert(bits_map(table.entries@).dom().contains(d.spec_name()));
            }
            let bits: usize = {
                let e = table.get(d.name()).unwrap();
                e.bits
            };
            proof {
                assert(bm.dom().contains(d.spec_name()));
                assert(bm[d.spec_name()] == bits as nat);
            }
            let sized = match d {
                Definition::Struct(mut s) => {
                    s.size = Some(bits);
                    Definition::Struct(s)
                },
                Definition::Message(mut mm) => {
                    mm.size = Some(bits);
                    Definition::Message(mm)
                },
                Definition::Enum(e) => Definition::Enum(e),
            };
            proof {
                assert(sized == with_size(odefs[k], bm));
            }
            new_defs.push(sized);
            proof {
                assert(new_defs@ =~= odefs.subrange(0, k + 1).map_values(
                    |d2: Definition| with_size(d2, bm),
                ));
            }
        }
        this.module.definitions = new_defs;
        // Record the dependency order.
        let mut order: Vec<String> = Vec::new();
        let n_entries = table.entries.len();
        let mut j: usize = 0;
        while j < n_entries
            invariant
                n_entries == table.entries@.len(),
                j <= n_entries,
                order@.len() == j,
                forall|q: int| 0 <= q < j ==> (#[trigger] order@[q])@ == table.entries@[q].name@,
            decreases n_entries - j,
        {
            order.push(table.entries[j].name.clone());
            j = j + 1;
        }
        this.module.order = order;
        proof {
            assert(names_of(this.module.order@) =~= entry_names(table.entries@)) by {
                assert forall|q: int| 0 <= q < this.module.order@.len() implies names_of(
                    this.module.order@,
                )[q] == entry_names(table.entries@)[q] by {
                    assert(names_of(this.module.order@)[q] == this.module.order@[q]@);
                }
            }
            let ndefs = this.module.definitions@;
            assert(ndefs == odefs.map_values(|d: Definition| with_size(d, bm))) by {
                assert(odefs.subrange(0, odefs.len() as int) =~= odefs);
                assert(ndefs =~= odefs.map_values(|d: Definition| with_size(d, bm)));
            }
            assert(names_of(this.module.order@) =~= entry_names(table.entries@));
            // Lookup transfer between the parsed and the sized definitions.
            assert forall|nm: Seq<char>| true implies #[trigger] find_def(ndefs, nm) == (match
                find_def(odefs, nm) {
                Some(d) => Some(with_size(d, bm)),
                None => None::<Definition>,
            }) by {
                lemma_find_def_sized(odefs, bm, nm, 0);
            }
            // The stored sizes equal the computed assignment.
            let sm = stored_sizes(ndefs);
            assert(sm =~= bm) by {
                assert forall|nm: Seq<char>| sm.dom().contains(nm) <==> bm.dom().contains(nm) by {
                    if find_def(odefs, nm) is Some {
                        assert(bm.dom().contains(nm));
                    }
                    if bm.dom().contains(nm) {
                        assert(find_def(odefs, nm) is Some);
                    }
                }
                assert forall|nm: Seq<char>| #[trigger] sm.dom().contains(nm) implies sm[nm]
                    == bm[nm] by {
                    let d = find_def(odefs, nm)->Some_0;
                    crate::ast::lemma_find_def_name(odefs, nm, 0);
                    assert(d.spec_name() == nm);
                    match d {
                        Definition::Enum(e) => {
                            assert(bm[nm] == crate::resolver::def_width_wrt(d, bm));
                        },
                        Definition::Struct(st) => {
                            assert(find_def(ndefs, nm) == Some(with_size(d, bm)));
                        },
                        Definition::Message(mm) => {
                            assert(find_def(ndefs, nm) == Some(with_size(d, bm)));
                        },
                    }
                }
            }
            // Consistency and order transfer to the sized definitions.
            assert forall|d: Definition| true implies #[trigger] crate::resolver::def_fields(
                with_size(d, bm),
            ) == crate::resolver::def_fields(d) by {
                match d {
                    Definition::Struct(st) => (),
                    Definition::Message(mm) => (),
                    Definition::Enum(e) => (),
                };
            }
            assert(sizes_consistent(ndefs, sm)) by {
                assert forall|nm: Seq<char>| #[trigger] sm.dom().contains(nm) implies (find_def(
                    ndefs,
                    nm,
                ) matches Some(d) && crate::resolver::def_refs_in(d, sm.dom())
                    && sm[nm] == crate::resolver::def_width_wrt(d, sm)) by {
                    assert(bm.dom().contains(nm));
                    let d0 = find_def(odefs, nm)->Some_0;
                    assert(find_def(ndefs, nm) == Some(with_size(d0, bm)));
                    assert(crate::resolver::def_refs_in(d0, bm.dom()));
                    assert(crate::resolver::def_width_wrt(with_size(d0, bm), sm)
                        == crate::resolver::def_width_wrt(d0, bm)) by {
                        assert(crate::resolver::def_fields(with_size(d0, bm))
                            == crate::resolver::def_fields(d0));
                    }
                }
            }
            assert(is_dependency_order(ndefs, names_of(this.module.order@))) by {
                let ord = names_of(this.module.order@);
                let en = entry_names(table.entries@);
                assert forall|i: int| 0 <= i < ord.len() implies (#[trigger] find_def(
                    ndefs,
                    ord[i],
                ) matches Some(d) && forall|nm2: Seq<char>|
                    crate::resolver::refers_to(d, nm2) ==> exists|jj: int|
                        0 <= jj < i && ord[jj] == nm2) by {
                    assert(ord[i] == en[i]);
                    assert(find_def(odefs, en[i]) is Some);
                    let d0 = find_def(odefs, en[i])->Some_0;
                    assert(find_def(ndefs, ord[i]) == Some(with_size(d0, bm)));
                    assert forall|nm2: Seq<char>|
                        crate::resolver::refers_to(with_size(d0, bm), nm2) implies exists|jj: int|
                        0 <= jj < i && ord[jj] == nm2 by {
                        assert(crate::resolver::def_fields(with_size(d0, bm))
                            == crate::resolver::def_fields(d0));
                        assert(crate::resolver::refers_to(d0, nm2));
                        let jj = choose|jj: int| 0 <= jj < i && en[jj] == nm2;
                        assert(ord[jj] == nm2);
                    }
                }
            }
            assert(order_covers(ndefs, names_of(this.module.order@))) by {
                assert forall|nm: Seq<char>| #[trigger] find_def(ndefs, nm) is Some implies
                    names_of(this.module.order@).contains(nm) by {
                    assert(find_def(odefs, nm) is Some);
                    assert(entry_names(table.entries@).contains(nm)) by {
                        assert(bits_map(table.entries@).dom().contains(nm));
                        crate::resolver::lemma_find_entry_names(table.entries@, nm, 0);
                    }
                }
            }
            assert forall|i: int| 0 <= i < ndefs.len() implies (#[trigger] ndefs[i]).spec_size()
                is Some by {
                assert(ndefs[i] == with_size(odefs[i], bm));
                match odefs[i] {
                    Definition::Struct(st) => (),
                    Definition::Message(mm) => (),
                    Definition::Enum(e) => (),
                };
            }
            assert(ndefs.map_values(|d: Definition| strip_size(d)) =~= odefs.map_values(
                |d: Definition| strip_size(d),
            )) by {
                assert forall|i: int| 0 <= i < ndefs.len() implies strip_size(ndefs[i])
                    == strip_size(odefs[i]) by {
                    assert(ndefs[i] == with_size(odefs[i], bm));
                    match odefs[i] {
                        Definition::Struct(st) => (),
                        Definition::Message(mm) => (),
                        Definition::Enum(e) => (),
                    };
                }
            }
        }
        Ok(this.module)
    }
}

impl<'a> Parser<'a> {
    /// Parses the entire module and resolves it.
    ///
    /// On success the returned module contains exactly the definitions the
    /// source declares, in declaration order and with pairwise distinct
    /// names, the declared endianness (little by default), the one
    /// consistent family of bit widths written into every definition, and a
    /// dependency-respecting name order covering every definition. Failure
    /// occurs exactly when the token sequence does not parse, or the parsed
    /// definitions contain a reference cycle, reference an undefined name,
    /// or need a width too large to represent.
    pub fn parse_module(self) -> (r: Result<OnyxModule, ParseError>)
        requires
            self.wf(),
            self.spec_pos() == 0,
            self.spec_module().definitions@.len() == 0,
            self.spec_module().endianness == WireEndianness::Little,
        ensures
            match r {
                Ok(m) => {
                    &&& module_parse_ok(self.spec_tokens())
                    &&& module_defs_match(
                        self.spec_tokens(),
                        m.definitions@.map_values(|d: Definition| strip_size(d)),
                    )
                    &&& m.endianness == module_endianness(self.spec_tokens())
                    &&& sizes_consistent(m.definitions@, stored_sizes(m.definitions@))
                    &&& is_dependency_order(m.definitions@, names_of(m.order@))
                    &&& names_of(m.order@).no_duplicates()
                    &&& order_covers(m.definitions@, names_of(m.order@))
                    &&& !has_reference_cycle(m.definitions@)
                    &&& forall|i: int|
                        0 <= i < m.definitions@.len() ==> (#[trigger] m.definitions@[i]).spec_size()
                            is Some
                },
                Err(_) => !module_parse_ok(self.spec_tokens()) || exists|ds: Seq<Definition>|
                    #[trigger] module_defs_match(self.spec_tokens(), ds) && (has_reference_cycle(
                        ds,
                    ) || has_undefined_reference(ds) || some_width_exceeds(ds)),
            },
    {
        let mut this = self;
        let ghost toks = this.spec_tokens();
        let mut endianness_set = false;
        let ghost p_start: int = if toks[0].kind is Endianness {
            3
        } else {
            0
        };
        if matches!(this.tokens[this.pos].kind, TokenKind::Endianness) {
            let e = this.parse_endianness_directive();
            match e {
                Ok(e) => {
                    this.module.endianness = e;
                    endianness_set = true;
                },
                Err(pe) => {
                    return Err(pe);
                },
            }
        }
        proof {
            assert(this.spec_pos() == p_start);
            assert(def_names(this.module.definitions@) =~= Set::<Seq<char>>::empty()) by {
                assert forall|nm: Seq<char>| !(#[trigger] find_def(
                    this.module.definitions@,
                    nm,
                ) is Some) by {}
            }
        }
        while !matches!(this.tokens[this.pos].kind, TokenKind::Eof)
            invariant
                this.wf(),
                this.spec_tokens() == toks,
                toks == self.spec_tokens(),
                toks.len() > 0,
                p_start == (if toks[0].kind is Endianness {
                    3int
                } else {
                    0int
                }),
                toks[0].kind is Endianness ==> endian_ok(toks, 0),
                p_start <= this.spec_pos() < toks.len(),
                this.module.endianness == module_endianness(toks),
                defs_ok(toks, this.spec_pos(), def_names(this.module.definitions@)) <==> defs_ok(
                    toks,
                    p_start,
                    Set::empty(),
                ),
                forall|ds2: Seq<Definition>|
                    defs_match(toks, this.spec_pos(), ds2) ==> #[trigger] defs_match(
                        toks,
                        p_start,
                        this.module.definitions@ + ds2,
                    ),
                forall|i: int|
                    0 <= i < this.module.definitions@.len() ==> strip_size(
                        #[trigger] this.module.definitions@[i],
                    ) == this.module.definitions@[i],
            decreases toks.len() - this.spec_pos(),
        {
            if matches!(this.tokens[this.pos].kind, TokenKind::Endianness) {
                let msg = if endianness_set {
                    String::from_str("expected one endianness definition, found a second")
                } else {
                    String::from_str("the endianness declaration must come before any definition")
                };
                return Err(this.err_here(msg));
            }
            let ghost p_prev = this.spec_pos();
            let ghost defs_prev = this.module.definitions@;
            let def = match this.parse_definition() {
                Ok(d) => d,
                Err(pe) => {
                    return Err(pe);
                },
            };
            if this.module.contains_definition(def.name()) {
                proof {
                    assert(def_names(defs_prev).contains(def_name_at(toks, p_prev)));
                    assert(!defs_ok(toks, p_prev, def_names(defs_prev)));
                }
                let mut msg = String::from_str(def.name());
                msg.append(" already exists, found second definition");
                return Err(this.err_here(msg));
            }
            let ghost def_g = def;
            this.module.definitions.push(def);
            proof {
                assert(!def_names(defs_prev).contains(def_name_at(toks, p_prev)));
                assert(def_names(this.module.definitions@) =~= def_names(defs_prev).insert(
                    def_name_at(toks, p_prev),
                )) by {
                    assert forall|nm: Seq<char>| true implies (#[trigger] find_def(
                        this.module.definitions@,
                        nm,
                    ) is Some) == (find_def(defs_prev, nm) is Some || nm == def_name_at(
                        toks,
                        p_prev,
                    )) by {
                        lemma_find_def_push(defs_prev, def_g, nm, 0);
                        assert(def_g.spec_name() == def_name_at(toks, p_prev));
                    }
                }
                assert forall|ds2: Seq<Definition>|
                    defs_match(toks, this.spec_pos(), ds2) implies #[trigger] defs_match(
                    toks,
                    p_start,
                    this.module.definitions@ + ds2,
                ) by {
                    let combined = seq![def_g] + ds2;
                    assert(combined[0] == def_g);
                    assert(combined.drop_first() =~= ds2);
                    assert(defs_match(toks, p_prev, combined));
                    assert(defs_prev + combined =~= this.module.definitions@ + ds2);
                }
                assert(strip_size(def_g) == def_g) by {
                    match def_g {
                        Definition::Struct(st) => {
                            assert(st.size is None);
                        },
                        Definition::Message(mm) => {
                            assert(mm.size is None);
                        },
                        Definition::Enum(e) => (),
                    };
                }
            }
        }
        proof {
            assert(defs_ok(toks, this.spec_pos(), def_names(this.module.definitions@)));
            assert(defs_ok(toks, p_start, Set::empty()));
            assert(module_parse_ok(toks));
            assert(defs_match(toks, this.spec_pos(), Seq::<Definition>::empty()));
            assert(this.module.definitions@ + Seq::<Definition>::empty()
                =~= this.module.definitions@);
            assert(defs_match(toks, p_start, this.module.definitions@));
            assert(module_defs_match(toks, this.module.definitions@));
        }
        let ghost parsed_defs = this.module.definitions@;
        let ghost parsed_endianness = this.module.endianness;
        match this.resolve_module() {
            Ok(m) => {
                proof {
                    assert(m.definitions@.map_values(|d: Definition| strip_size(d))
                        == parsed_defs.map_values(|d: Definition| strip_size(d)));
                    assert(parsed_defs.map_values(|d: Definition| strip_size(d)) =~= parsed_defs);
                    assert(module_defs_match(
                        toks,
                        m.definitions@.map_values(|d: Definition| strip_size(d)),
                    ));
                    crate::resolver::lemma_dependency_order_excludes_cycle(
                        m.definitions@,
                        names_of(m.order@),
                    );
                }
                Ok(m)
            },
            Err(pe) => {
                proof {
                    assert(module_defs_match(toks, parsed_defs));
                    assert(has_reference_cycle(parsed_defs) || has_undefined_reference(parsed_defs)
                        || some_width_exceeds(parsed_defs));
                }
                Err(pe)
            },
        }
    }
}

} // verus!
