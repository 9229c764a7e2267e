//! The tokenizer: turns source text into a sequence of tokens, each carrying
//! its kind and a source position (line plus a character span within the
//! line) for diagnostics.
//!
//! Tokenization is a pure function of the source text: the relation
//! [`tokens_from`] pins down, for any lexer state, exactly which token
//! sequence the remaining input denotes. For a non-empty source the sequence
//! ends with a single [`TokenKind::Eof`] token; an empty source denotes the
//! empty sequence. Unrecognized characters and oversized integer literals
//! become [`TokenKind::Error`] tokens rather than stopping iteration.

use vstd::prelude::*;
use vstd::string::*;
use crate::ast::PrimitiveType;
use crate::text::{push_char, str_eq_str, spec_repeat, char_repeat};

verus! {

/// A half-open span of character offsets within a line.
#[derive(Debug, Clone, Copy, PartialEq, Eq, Structural)]
pub struct Span {
    /// The starting character offset (inclusive).
    pub start: usize,
    /// The ending character offset (exclusive).
    pub end: usize,
}

/// A token location: 0-indexed line number and the span within that line.
#[derive(Debug, Clone, Copy, PartialEq, Eq, Structural)]
pub struct Position {
    /// The 0-indexed line number.
    pub line: usize,
    /// The span of the token within its line.
    pub span: Span,
}

impl Position {
    /// Renders the position as `line:column`, both 1-indexed for display.
    pub fn render(&self) -> (r: String)
        ensures
            r@ == crate::text::spec_decimal(self.line as nat + 1) + ":"@ + crate::text::spec_decimal(
                self.span.start as nat + 1,
            ),
    {
        let mut r = crate::text::render_one_based(self.line);
        r.append(":");
        let col = crate::text::render_one_based(self.span.start);
        r.append(col.as_str());
        r
    }
}

/// The token kinds of the language.
#[derive(Debug)]
pub enum TokenKind {
    /// The `endian` keyword.
    Endianness,
    /// The `import` keyword (reserved, unused).
    Import,
    /// The `message` keyword.
    Message,
    /// The `struct` keyword.
    Struct,
    /// The `enum` keyword.
    Enum,
    /// A primitive type keyword such as `u8` or `bool`.
    Primitive(PrimitiveType),
    /// Open brace `{`.
    OpenBrace,
    /// Close brace `}`.
    CloseBrace,
    /// Comma `,`.
    Comma,
    /// Colon `:`.
    Colon,
    /// Semicolon `;`.
    Semicolon,
    /// Assignment operator `=`.
    Assign,
    /// An identifier such as `MyStruct` or `my_field`.
    Identifier(String),
    /// An integer literal such as `123`.
    LiteralInt(u64),
    /// End-of-file marker, emitted exactly once when the input is exhausted.
    Eof,
    /// A lexical error, carrying a diagnostic message.
    Error(String),
}

/// Equality of token kinds: same variant, with payloads compared by content.
pub open spec fn kind_eq_spec(a: TokenKind, b: TokenKind) -> bool {
    match a {
        TokenKind::Endianness => b is Endianness,
        TokenKind::Import => b is Import,
        TokenKind::Message => b is Message,
        TokenKind::Struct => b is Struct,
        TokenKind::Enum => b is Enum,
        TokenKind::Primitive(p) => b matches TokenKind::Primitive(q) && p == q,
        TokenKind::OpenBrace => b is OpenBrace,
        TokenKind::CloseBrace => b is CloseBrace,
        TokenKind::Comma => b is Comma,
        TokenKind::Colon => b is Colon,
        TokenKind::Semicolon => b is Semicolon,
        TokenKind::Assign => b is Assign,
        TokenKind::Identifier(s) => b matches TokenKind::Identifier(t) && s@ == t@,
        TokenKind::LiteralInt(v) => b matches TokenKind::LiteralInt(w) && v == w,
        TokenKind::Eof => b is Eof,
        TokenKind::Error(s) => b matches TokenKind::Error(t) && s@ == t@,
    }
}

impl PartialEq for TokenKind {
    fn eq(&self, other: &Self) -> (r: bool) {
        let r = match self {
            TokenKind::Endianness => matches!(other, TokenKind::Endianness),
            TokenKind::Import => matches!(other, TokenKind::Import),
            TokenKind::Message => matches!(other, TokenKind::Message),
            TokenKind::Struct => matches!(other, TokenKind::Struct),
            TokenKind::Enum => matches!(other, TokenKind::Enum),
            TokenKind::Primitive(p) => match other {
                TokenKind::Primitive(q) => *p == *q,
                _ => false,
            },
            TokenKind::OpenBrace => matches!(other, TokenKind::OpenBrace),
            TokenKind::CloseBrace => matches!(other, TokenKind::CloseBrace),
            TokenKind::Comma => matches!(other, TokenKind::Comma),
            TokenKind::Colon => matches!(other, TokenKind::Colon),
            TokenKind::Semicolon => matches!(other, TokenKind::Semicolon),
            TokenKind::Assign => matches!(other, TokenKind::Assign),
            TokenKind::Identifier(s) => match other {
                TokenKind::Identifier(t) => str_eq_str(s.as_str(), t.as_str()),
                _ => false,
            },
            TokenKind::LiteralInt(v) => match other {
                TokenKind::LiteralInt(w) => *v == *w,
                _ => false,
            },
            TokenKind::Eof => matches!(other, TokenKind::Eof),
            TokenKind::Error(s) => match other {
                TokenKind::Error(t) => str_eq_str(s.as_str(), t.as_str()),
                _ => false,
            },
        };
        r
    }
}

impl vstd::std_specs::cmp::PartialEqSpecImpl for TokenKind {
    open spec fn obeys_eq_spec() -> bool {
        true
    }

    open spec fn eq_spec(&self, other: &TokenKind) -> bool {
        kind_eq_spec(*self, *other)
    }
}

/// A token: its kind and its location in the source.
#[derive(Debug, PartialEq)]
pub struct Token {
    /// The kind of the token.
    pub kind: TokenKind,
    /// The position of the token in the source.
    pub position: Position,
}

// ------------------------------------------------------------------
// Character classes
// ------------------------------------------------------------------

/// ASCII whitespace: space, tab, newline, carriage return, form feed.
pub open spec fn is_ws_char(c: char) -> bool {
    c == ' ' || c == '\t' || c == '\n' || c == '\r' || c == '\x0c'
}

/// An ASCII decimal digit.
pub open spec fn is_digit_char(c: char) -> bool {
    48 <= c as u32 <= 57
}

/// A character that may start an identifier: an ASCII letter or underscore.
pub open spec fn is_ident_start_char(c: char) -> bool {
    (65 <= c as u32 <= 90) || (97 <= c as u32 <= 122) || c == '_'
}

/// A character that may continue an identifier: a letter, digit or
/// underscore.
pub open spec fn is_ident_char(c: char) -> bool {
    is_ident_start_char(c) || is_digit_char(c)
}

fn ws_char(c: char) -> (r: bool)
    ensures
        r == is_ws_char(c),
{
    c == ' ' || c == '\t' || c == '\n' || c == '\r' || c == '\x0c'
}

fn digit_char(c: char) -> (r: bool)
    ensures
        r == is_digit_char(c),
{
    let u = c as u32;
    48 <= u && u <= 57
}

fn ident_start_char(c: char) -> (r: bool)
    ensures
        r == is_ident_start_char(c),
{
    let u = c as u32;
    (65 <= u && u <= 90) || (97 <= u && u <= 122) || c == '_'
}

fn ident_char(c: char) -> (r: bool)
    ensures
        r == is_ident_char(c),
{
    ident_start_char(c) || digit_char(c)
}

// ------------------------------------------------------------------
// The specification of tokenization
// ------------------------------------------------------------------

/// A lexer state: position in the source, current line, column within the
/// line, and whether the end-of-file token has been emitted.
pub struct LexSt {
    /// The character position in the source.
    pub pos: int,
    /// The 0-indexed current line.
    pub line: int,
    /// The character column within the current line.
    pub col: int,
    /// Whether the end-of-file token has been emitted.
    pub eof: bool,
}

/// The state after skipping whitespace: positions advance, newlines bump the
/// line and reset the column.
pub open spec fn skip_ws_state(src: Seq<char>, pos: int, line: int, col: int) -> LexSt
    decreases src.len() - pos,
{
    if pos < 0 || pos >= src.len() {
        LexSt { pos, line, col, eof: false }
    } else if src[pos] == '\n' {
        skip_ws_state(src, pos + 1, line + 1, 0)
    } else if is_ws_char(src[pos]) {
        skip_ws_state(src, pos + 1, line, col + 1)
    } else {
        LexSt { pos, line, col, eof: false }
    }
}

/// The end of the identifier run starting at `i`.
pub open spec fn ident_end(src: Seq<char>, i: int) -> int
    decreases src.len() - i,
{
    if i < 0 || i >= src.len() || !is_ident_char(src[i]) {
        i
    } else {
        ident_end(src, i + 1)
    }
}

/// The end of the digit run starting at `i`.
pub open spec fn digits_end(src: Seq<char>, i: int) -> int
    decreases src.len() - i,
{
    if i < 0 || i >= src.len() || !is_digit_char(src[i]) {
        i
    } else {
        digits_end(src, i + 1)
    }
}

/// The numeric value of a digit run, read left to right.
pub open spec fn digits_val(s: Seq<char>) -> nat
    decreases s.len(),
{
    if s.len() == 0 {
        0
    } else {
        (digits_val(s.drop_last()) * 10 + (s.last() as u32 - 48)) as nat
    }
}

/// The token kind of a single delimiter character, if it is one.
pub open spec fn single_char_kind(c: char) -> Option<TokenKind> {
    if c == '{' {
        Some(TokenKind::OpenBrace)
    } else if c == '}' {
        Some(TokenKind::CloseBrace)
    } else if c == ',' {
        Some(TokenKind::Comma)
    } else if c == ':' {
        Some(TokenKind::Colon)
    } else if c == ';' {
        Some(TokenKind::Semicolon)
    } else if c == '=' {
        Some(TokenKind::Assign)
    } else {
        None
    }
}

/// Which token kind an identifier run denotes: a keyword or primitive name
/// takes precedence over a generic identifier.
pub open spec fn ident_kind_matches(run: Seq<char>, k: TokenKind) -> bool {
    if run == "import"@ {
        k is Import
    } else if run == "endian"@ {
        k is Endianness
    } else if run == "message"@ {
        k is Message
    } else if run == "struct"@ {
        k is Struct
    } else if run == "enum"@ {
        k is Enum
    } else if run == "bool"@ {
        k == TokenKind::Primitive(PrimitiveType::Bool)
    } else if run == "u8"@ {
        k == TokenKind::Primitive(PrimitiveType::U8)
    } else if run == "u16"@ {
        k == TokenKind::Primitive(PrimitiveType::U16)
    } else if run == "u32"@ {
        k == TokenKind::Primitive(PrimitiveType::U32)
    } else if run == "u64"@ {
        k == TokenKind::Primitive(PrimitiveType::U64)
    } else if run == "i8"@ {
        k == TokenKind::Primitive(PrimitiveType::I8)
    } else if run == "i16"@ {
        k == TokenKind::Primitive(PrimitiveType::I16)
    } else if run == "i32"@ {
        k == TokenKind::Primitive(PrimitiveType::I32)
    } else if run == "i64"@ {
        k == TokenKind::Primitive(PrimitiveType::I64)
    } else if run == "f32"@ {
        k == TokenKind::Primitive(PrimitiveType::F32)
    } else if run == "f64"@ {
        k == TokenKind::Primitive(PrimitiveType::F64)
    } else {
        k matches TokenKind::Identifier(s) && s@ == run
    }
}

/// Whether `t` is the token produced at the whitespace-free position
/// `(pos, line, col)`.
pub open spec fn lex_step_token(src: Seq<char>, pos: int, line: int, col: int, t: Token) -> bool {
    &&& t.position.line == line
    &&& t.position.span.start == col
    &&& if pos == src.len() {
        t.kind is Eof && t.position.span.end == col
    } else if single_char_kind(src[pos]) is Some {
        t.kind == single_char_kind(src[pos])->Some_0 && t.position.span.end == col + 1
    } else if is_ident_start_char(src[pos]) {
        let e = ident_end(src, pos);
        ident_kind_matches(src.subrange(pos, e), t.kind) && t.position.span.end == col + (e - pos)
    } else if is_digit_char(src[pos]) {
        let e = digits_end(src, pos);
        let run = src.subrange(pos, e);
        (if digits_val(run) <= u64::MAX {
            t.kind matches TokenKind::LiteralInt(v) && v == digits_val(run)
        } else {
            t.kind matches TokenKind::Error(m) && m@ == "Invalid or oversized integer literal: "@
                + run
        }) && t.position.span.end == col + (e - pos)
    } else {
        t.kind matches TokenKind::Error(m) && m@ == "Unrecognized character: '"@ + seq![src[pos]]
            + "'"@ && t.position.span.end == col + 1
    }
}

/// The state after producing the token at the whitespace-free position
/// `(pos, line, col)`.
pub open spec fn lex_step_end(src: Seq<char>, pos: int, line: int, col: int) -> LexSt {
    if pos == src.len() {
        LexSt { pos, line, col, eof: true }
    } else if single_char_kind(src[pos]) is Some {
        LexSt { pos: pos + 1, line, col: col + 1, eof: false }
    } else if is_ident_start_char(src[pos]) {
        let e = ident_end(src, pos);
        LexSt { pos: e, line, col: col + (e - pos), eof: false }
    } else if is_digit_char(src[pos]) {
        let e = digits_end(src, pos);
        LexSt { pos: e, line, col: col + (e - pos), eof: false }
    } else {
        LexSt { pos: pos + 1, line, col: col + 1, eof: false }
    }
}

/// Whether the lexer at this state yields no further token.
pub open spec fn lex_done(src: Seq<char>, eof: bool) -> bool {
    eof || src.len() == 0
}

/// Skipping whitespace only moves the position forward, and stops either at
/// the end or on a non-whitespace character.
pub proof fn lemma_skip_ws_bounds(src: Seq<char>, pos: int, line: int, col: int)
    requires
        0 <= pos <= src.len(),
    ensures
        pos <= skip_ws_state(src, pos, line, col).pos <= src.len(),
        skip_ws_state(src, pos, line, col).pos < src.len() ==> !is_ws_char(
            src[skip_ws_state(src, pos, line, col).pos],
        ),
        !skip_ws_state(src, pos, line, col).eof,
    decreases src.len() - pos,
{
    if pos < src.len() && is_ws_char(src[pos]) {
        if src[pos] == '\n' {
            lemma_skip_ws_bounds(src, pos + 1, line + 1, 0);
        } else {
            lemma_skip_ws_bounds(src, pos + 1, line, col + 1);
        }
    }
}

/// Identifier and digit runs stay within the source and do not move
/// backwards; every character inside the run belongs to the class.
pub proof fn lemma_ident_end_bounds(src: Seq<char>, i: int)
    requires
        0 <= i <= src.len(),
    ensures
        i <= ident_end(src, i) <= src.len(),
        forall|j: int| i <= j < ident_end(src, i) ==> is_ident_char(#[trigger] src[j]),
        ident_end(src, i) < src.len() ==> !is_ident_char(src[ident_end(src, i)]),
    decreases src.len() - i,
{
    if i < src.len() && is_ident_char(src[i]) {
        lemma_ident_end_bounds(src, i + 1);
    }
}

/// Digit-run counterpart of [`lemma_ident_end_bounds`].
pub proof fn lemma_digits_end_bounds(src: Seq<char>, i: int)
    requires
        0 <= i <= src.len(),
    ensures
        i <= digits_end(src, i) <= src.len(),
        forall|j: int| i <= j < digits_end(src, i) ==> is_digit_char(#[trigger] src[j]),
        digits_end(src, i) < src.len() ==> !is_digit_char(src[digits_end(src, i)]),
    decreases src.len() - i,
{
    if i < src.len() && is_digit_char(src[i]) {
        lemma_digits_end_bounds(src, i + 1);
    }
}

/// A step from a live state moves strictly forward: the position grows, or
/// the end-of-file token is emitted.
pub proof fn lemma_step_progress(src: Seq<char>, pos: int, line: int, col: int)
    requires
        0 <= pos <= src.len(),
    ensures
        ({
            let st = skip_ws_state(src, pos, line, col);
            let st2 = lex_step_end(src, st.pos, st.line, st.col);
            &&& st2.pos <= src.len()
            &&& (st2.pos > pos || (st2.pos == pos && st2.eof))
            &&& st2.pos >= 0
        }),
{
    lemma_skip_ws_bounds(src, pos, line, col);
    let st = skip_ws_state(src, pos, line, col);
    if st.pos < src.len() {
        if single_char_kind(src[st.pos]) is Some {
        } else if is_ident_start_char(src[st.pos]) {
            lemma_ident_end_bounds(src, st.pos);
        } else if is_digit_char(src[st.pos]) {
            lemma_digits_end_bounds(src, st.pos);
        }
    }
}

/// The token sequence denoted by a lexer state: no tokens when done,
/// otherwise the head token of the state followed by the tokens of the
/// successor state.
pub open spec fn tokens_from(
    src: Seq<char>,
    pos: int,
    line: int,
    col: int,
    eof: bool,
    toks: Seq<Token>,
) -> bool
    decreases (src.len() - pos) * 2 + (if eof {
        0int
    } else {
        1int
    }) via tokens_from_decreases
{
    if lex_done(src, eof) || !(0 <= pos <= src.len()) {
        toks.len() == 0
    } else {
        let st = skip_ws_state(src, pos, line, col);
        let st2 = lex_step_end(src, st.pos, st.line, st.col);
        toks.len() > 0 && lex_step_token(src, st.pos, st.line, st.col, toks[0]) && tokens_from(
            src,
            st2.pos,
            st2.line,
            st2.col,
            st2.eof,
            toks.drop_first(),
        )
    }
}

#[via_fn]
proof fn tokens_from_decreases(
    src: Seq<char>,
    pos: int,
    line: int,
    col: int,
    eof: bool,
    toks: Seq<Token>,
) {
    if !(lex_done(src, eof) || !(0 <= pos <= src.len())) {
        lemma_step_progress(src, pos, line, col);
    }
}

/// Lexer for tokenizing source code. It holds a cursor into the borrowed
/// source text and yields one token per call of [`Lexer::next`].
pub struct Lexer<'a> {
    source: &'a str,
    len: usize,
    pos: usize,
    current_line: usize,
    current_col: usize,
    start_line_indices: Vec<usize>,
    eof_done: bool,
}

impl<'a> Lexer<'a> {
    /// The source text being tokenized.
    pub closed spec fn spec_src(self) -> Seq<char> {
        self.source@
    }

    /// The current character position.
    pub closed spec fn spec_pos(self) -> int {
        self.pos as int
    }

    /// The current 0-indexed line.
    pub closed spec fn spec_line(self) -> int {
        self.current_line as int
    }

    /// The current column within the line.
    pub closed spec fn spec_col(self) -> int {
        self.current_col as int
    }

    /// Whether the end-of-file token has been emitted.
    pub closed spec fn spec_eof(self) -> bool {
        self.eof_done
    }

    /// The recorded start positions of the lines seen so far.
    pub closed spec fn spec_line_starts(self) -> Seq<usize> {
        self.start_line_indices@
    }

    /// The lexer's internal consistency: the cached length matches the
    /// source, the cursor is inside it, the column never exceeds the
    /// position, and the end-of-file flag is only set at the end.
    pub closed spec fn wf(self) -> bool {
        &&& self.len == self.source@.len()
        &&& self.pos <= self.len
        &&& self.current_col <= self.pos
        &&& self.current_line <= self.pos
        &&& (self.eof_done ==> self.pos == self.len)
    }

    /// Creates a new lexer over the given source text.
    pub fn new(source: &'a str) -> (r: Self)
        ensures
            r.wf(),
            r.spec_src() == source@,
            r.spec_pos() == 0,
            r.spec_line() == 0,
            r.spec_col() == 0,
            !r.spec_eof(),
            r.spec_line_starts() == seq![0usize],
    {
        let len = source.unicode_len();
        let mut start_line_indices: Vec<usize> = Vec::new();
        start_line_indices.push(0);
        proof {
            assert(start_line_indices@ =~= seq![0usize]);
        }
        Lexer {
            source,
            len,
            pos: 0,
            current_line: 0,
            current_col: 0,
            start_line_indices,
            eof_done: false,
        }
    }

    /// Advances past the current character within a line.
    fn advance(&mut self) -> (r: Option<char>)
        requires
            old(self).wf(),
            old(self).spec_pos() < old(self).spec_src().len(),
        ensures
            final(self).wf(),
            final(self).spec_src() == old(self).spec_src(),
            r == Some(old(self).spec_src()[old(self).spec_pos()]),
            final(self).spec_pos() == old(self).spec_pos() + 1,
            final(self).spec_col() == old(self).spec_col() + 1,
            final(self).spec_line() == old(self).spec_line(),
            final(self).spec_eof() == old(self).spec_eof(),
            final(self).spec_line_starts() == old(self).spec_line_starts(),
    {
        let c = self.source.get_char(self.pos);
        self.pos = self.pos + 1;
        self.current_col = self.current_col + 1;
        Some(c)
    }

    /// Advances past a newline character, starting a new line.
    fn advance_new_line(&mut self) -> (r: Option<char>)
        requires
            old(self).wf(),
            old(self).spec_pos() < old(self).spec_src().len(),
        ensures
            final(self).wf(),
            final(self).spec_src() == old(self).spec_src(),
            r == Some(old(self).spec_src()[old(self).spec_pos()]),
            final(self).spec_pos() == old(self).spec_pos() + 1,
            final(self).spec_col() == 0,
            final(self).spec_line() == old(self).spec_line() + 1,
            final(self).spec_eof() == old(self).spec_eof(),
            final(self).spec_line_starts() == old(self).spec_line_starts().push(
                (old(self).spec_pos() + 1) as usize,
            ),
    {
        let c = self.source.get_char(self.pos);
        self.current_col = 0;
        self.pos = self.pos + 1;
        self.current_line = self.current_line + 1;
        self.start_line_indices.push(self.pos);
        Some(c)
    }

    /// Peeks at the current character without consuming it.
    fn peek(&self) -> (r: Option<char>)
        requires
            self.wf(),
        ensures
            r == if self.spec_pos() < self.spec_src().len() {
                Some(self.spec_src()[self.spec_pos()])
            } else {
                None::<char>
            },
    {
        if self.pos < self.len {
            Some(self.source.get_char(self.pos))
        } else {
            None
        }
    }

    /// Skips all whitespace characters, tracking line starts.
    fn skip_whitespace(&mut self)
        requires
            old(self).wf(),
        ensures
            final(self).wf(),
            final(self).spec_src() == old(self).spec_src(),
            final(self).spec_eof() == old(self).spec_eof(),
            ({
                let st = skip_ws_state(
                    old(self).spec_src(),
                    old(self).spec_pos(),
                    old(self).spec_line(),
                    old(self).spec_col(),
                );
                &&& final(self).spec_pos() == st.pos
                &&& final(self).spec_line() == st.line
                &&& final(self).spec_col() == st.col
            }),
    {
        loop
            invariant
                self.wf(),
                self.spec_src() == old(self).spec_src(),
                self.spec_eof() == old(self).spec_eof(),
                skip_ws_state(
                    old(self).spec_src(),
                    old(self).spec_pos(),
                    old(self).spec_line(),
                    old(self).spec_col(),
                ) == skip_ws_state(
                    self.spec_src(),
                    self.spec_pos(),
                    self.spec_line(),
                    self.spec_col(),
                ),
            ensures
                self.wf(),
                self.spec_src() == old(self).spec_src(),
                self.spec_eof() == old(self).spec_eof(),
                skip_ws_state(
                    old(self).spec_src(),
                    old(self).spec_pos(),
                    old(self).spec_line(),
                    old(self).spec_col(),
                ) == skip_ws_state(
                    self.spec_src(),
                    self.spec_pos(),
                    self.spec_line(),
                    self.spec_col(),
                ),
                self.spec_pos() >= self.spec_src().len() || !is_ws_char(
                    self.spec_src()[self.spec_pos()],
                ),
            decreases self.len - self.pos,
        {
            if self.pos >= self.len {
                break ;
            }
            let c = self.source.get_char(self.pos);
            if c == '\n' {
                self.advance_new_line();
            } else if ws_char(c) {
                self.advance();
            } else {
                break ;
            }
        }
        proof {
            assert(skip_ws_state(
                self.spec_src(),
                self.spec_pos(),
                self.spec_line(),
                self.spec_col(),
            ) == LexSt {
                pos: self.spec_pos(),
                line: self.spec_line(),
                col: self.spec_col(),
                eof: false,
            });
        }
    }

    /// Consumes an identifier or keyword run and classifies it.
    fn take_identifier(&mut self) -> (k: TokenKind)
        requires
            old(self).wf(),
            old(self).spec_pos() < old(self).spec_src().len(),
            is_ident_char(old(self).spec_src()[old(self).spec_pos()]),
        ensures
            final(self).wf(),
            final(self).spec_src() == old(self).spec_src(),
            final(self).spec_eof() == old(self).spec_eof(),
            final(self).spec_line() == old(self).spec_line(),
            final(self).spec_line_starts() == old(self).spec_line_starts(),
            final(self).spec_pos() == ident_end(old(self).spec_src(), old(self).spec_pos()),
            final(self).spec_col() == old(self).spec_col() + final(self).spec_pos() - old(self).spec_pos(),
            ident_kind_matches(
                old(self).spec_src().subrange(old(self).spec_pos(), final(self).spec_pos()),
                k,
            ),
    {
        let start = self.pos;
        while self.pos < self.len && ident_char(self.source.get_char(self.pos))
            invariant
                self.wf(),
                self.spec_src() == old(self).spec_src(),
                self.spec_eof() == old(self).spec_eof(),
                self.spec_line() == old(self).spec_line(),
                self.spec_line_starts() == old(self).spec_line_starts(),
                start == old(self).spec_pos(),
                self.spec_pos() >= start,
                self.spec_col() == old(self).spec_col() + (self.spec_pos() - start),
                ident_end(self.spec_src(), start as int) == ident_end(
                    self.spec_src(),
                    self.spec_pos(),
                ),
            decreases self.len - self.pos,
        {
            self.advance();
        }
        proof {
            assert(ident_end(self.spec_src(), self.spec_pos()) == self.spec_pos());
        }
        let run = self.source.substring_char(start, self.pos);
        if str_eq_str(run, "import") {
            TokenKind::Import
        } else if str_eq_str(run, "endian") {
            TokenKind::Endianness
        } else if str_eq_str(run, "message") {
            TokenKind::Message
        } else if str_eq_str(run, "struct") {
            TokenKind::Struct
        } else if str_eq_str(run, "enum") {
            TokenKind::Enum
        } else if str_eq_str(run, "bool") {
            TokenKind::Primitive(PrimitiveType::Bool)
        } else if str_eq_str(run, "u8") {
            TokenKind::Primitive(PrimitiveType::U8)
        } else if str_eq_str(run, "u16") {
            TokenKind::Primitive(PrimitiveType::U16)
        } else if str_eq_str(run, "u32") {
            TokenKind::Primitive(PrimitiveType::U32)
        } else if str_eq_str(run, "u64") {
            TokenKind::Primitive(PrimitiveType::U64)
        } else if str_eq_str(run, "i8") {
            TokenKind::Primitive(PrimitiveType::I8)
        } else if str_eq_str(run, "i16") {
            TokenKind::Primitive(PrimitiveType::I16)
        } else if str_eq_str(run, "i32") {
            TokenKind::Primitive(PrimitiveType::I32)
        } else if str_eq_str(run, "i64") {
            TokenKind::Primitive(PrimitiveType::I64)
        } else if str_eq_str(run, "f32") {
            TokenKind::Primitive(PrimitiveType::F32)
        } else if str_eq_str(run, "f64") {
            TokenKind::Primitive(PrimitiveType::F64)
        } else {
            TokenKind::Identifier(String::from_str(run))
        }
    }

    /// Consumes a digit run and parses it as an unsigned 64-bit integer; a
    /// run that overflows yields an error token instead.
    fn take_number(&mut self) -> (k: TokenKind)
        requires
            old(self).wf(),
            old(self).spec_pos() < old(self).spec_src().len(),
            is_digit_char(old(self).spec_src()[old(self).spec_pos()]),
        ensures
            final(self).wf(),
            final(self).spec_src() == old(self).spec_src(),
            final(self).spec_eof() == old(self).spec_eof(),
            final(self).spec_line() == old(self).spec_line(),
            final(self).spec_line_starts() == old(self).spec_line_starts(),
            final(self).spec_pos() == digits_end(old(self).spec_src(), old(self).spec_pos()),
            final(self).spec_col() == old(self).spec_col() + final(self).spec_pos() - old(self).spec_pos(),
            ({
                let run = old(self).spec_src().subrange(
                    old(self).spec_pos(),
                    final(self).spec_pos(),
                );
                if digits_val(run) <= u64::MAX {
                    k matches TokenKind::LiteralInt(v) && v == digits_val(run)
                } else {
                    k matches TokenKind::Error(m) && m@ == "Invalid or oversized integer literal: "@
                        + run
                }
            }),
    {
        let start = self.pos;
        while self.pos < self.len && digit_char(self.source.get_char(self.pos))
            invariant
                self.wf(),
                self.spec_src() == old(self).spec_src(),
                self.spec_eof() == old(self).spec_eof(),
                self.spec_line() == old(self).spec_line(),
                self.spec_line_starts() == old(self).spec_line_starts(),
                start == old(self).spec_pos(),
                self.spec_pos() >= start,
                self.spec_col() == old(self).spec_col() + (self.spec_pos() - start),
                digits_end(self.spec_src(), start as int) == digits_end(
                    self.spec_src(),
                    self.spec_pos(),
                ),
            decreases self.len - self.pos,
        {
            self.advance();
        }
        proof {
            assert(digits_end(self.spec_src(), self.spec_pos()) == self.spec_pos());
            lemma_digits_end_bounds(self.spec_src(), start as int);
        }
        let end = self.pos;
        let ghost src = self.spec_src();
        let ghost full = src.subrange(start as int, end as int);
        let mut val: u64 = 0;
        let mut i = start;
        while i < end
            invariant
                self.wf(),
                src == self.spec_src(),
                src == old(self).spec_src(),
                self.spec_eof() == old(self).spec_eof(),
                self.spec_line() == old(self).spec_line(),
                self.spec_line_starts() == old(self).spec_line_starts(),
                start == old(self).spec_pos(),
                end as int == digits_end(src, start as int),
                self.spec_col() == old(self).spec_col() + (end - start),
                start <= i <= end,
                end == self.spec_pos(),
                end as int <= src.len(),
                full == src.subrange(start as int, end as int),
                forall|j: int| start <= j < end ==> is_digit_char(#[trigger] src[j]),
                val as nat == digits_val(src.subrange(start as int, i as int)),
            decreases end - i,
        {
            let c = self.source.get_char(i);
            let d: u32 = c as u32 - 48;
            let next = match val.checked_mul(10) {
                Some(v) => v.checked_add(d as u64),
                None => None,
            };
            match next {
                Some(v) => {
                    proof {
                        let pre = src.subrange(start as int, i as int);
                        let cur = src.subrange(start as int, i as int + 1);
                        assert(cur.drop_last() =~= pre);
                        assert(cur.last() == src[i as int]);
                    }
                    val = v;
                },
                None => {
                    proof {
                        let pre = src.subrange(start as int, i as int);
                        let cur = src.subrange(start as int, i as int + 1);
                        assert(cur.drop_last() =~= pre);
                        assert(cur.last() == src[i as int]);
                        assert(digits_val(cur) > u64::MAX);
                        lemma_digits_val_monotone(src, start as int, i as int + 1, end as int);
                    }
                    let run = self.source.substring_char(start, end);
                    let mut m = String::from_str("Invalid or oversized integer literal: ");
                    m.append(run);
                    return TokenKind::Error(m);
                },
            }
            i = i + 1;
        }
        proof {
            assert(src.subrange(start as int, end as int) == full);
        }
        TokenKind::LiteralInt(val)
    }
}

impl<'a> Lexer<'a> {
    /// Produces the next token: skips whitespace, then classifies the
    /// character at the cursor. At the end of a non-empty source it yields
    /// the end-of-file token exactly once, and nothing afterwards; an empty
    /// source yields nothing at all.
    pub fn next(&mut self) -> (r: Option<Token>)
        requires
            old(self).wf(),
        ensures
            final(self).wf(),
            final(self).spec_src() == old(self).spec_src(),
            match r {
                None => {
                    &&& lex_done(old(self).spec_src(), old(self).spec_eof())
                    &&& final(self).spec_pos() == old(self).spec_pos()
                    &&& final(self).spec_line() == old(self).spec_line()
                    &&& final(self).spec_col() == old(self).spec_col()
                    &&& final(self).spec_eof() == old(self).spec_eof()
                    &&& final(self).spec_line_starts() == old(self).spec_line_starts()
                },
                Some(t) => {
                    let st = skip_ws_state(
                        old(self).spec_src(),
                        old(self).spec_pos(),
                        old(self).spec_line(),
                        old(self).spec_col(),
                    );
                    let st2 = lex_step_end(old(self).spec_src(), st.pos, st.line, st.col);
                    &&& !lex_done(old(self).spec_src(), old(self).spec_eof())
                    &&& lex_step_token(old(self).spec_src(), st.pos, st.line, st.col, t)
                    &&& final(self).spec_pos() == st2.pos
                    &&& final(self).spec_line() == st2.line
                    &&& final(self).spec_col() == st2.col
                    &&& final(self).spec_eof() == st2.eof
                },
            },
    {
        if self.eof_done {
            return None;
        }
        if self.len == 0 {
            return None;
        }
        self.skip_whitespace();
        proof {
            lemma_skip_ws_bounds(
                old(self).spec_src(),
                old(self).spec_pos(),
                old(self).spec_line(),
                old(self).spec_col(),
            );
        }
        let c = match self.peek() {
            Some(c) => c,
            None => {
                self.eof_done = true;
                return Some(
                    Token {
                        kind: TokenKind::Eof,
                        position: Position {
                            line: self.current_line,
                            span: Span { start: self.current_col, end: self.current_col },
                        },
                    },
                );
            },
        };
        let line = self.current_line;
        let start_col = self.current_col;
        let kind = if c == '{' {
            self.advance();
            TokenKind::OpenBrace
        } else if c == '}' {
            self.advance();
            TokenKind::CloseBrace
        } else if c == ',' {
            self.advance();
            TokenKind::Comma
        } else if c == ':' {
            self.advance();
            TokenKind::Colon
        } else if c == ';' {
            self.advance();
            TokenKind::Semicolon
        } else if c == '=' {
            self.advance();
            TokenKind::Assign
        } else if ident_start_char(c) {
            self.take_identifier()
        } else if digit_char(c) {
            self.take_number()
        } else {
            self.advance();
            let mut m = String::from_str("Unrecognized character: '");
            push_char(&mut m, c);
            m.append("'");
            proof {
                assert(m@ =~= "Unrecognized character: '"@ + seq![c] + "'"@);
            }
            TokenKind::Error(m)
        };
        Some(
            Token {
                kind,
                position: Position { line, span: Span { start: start_col, end: self.current_col } },
            },
        )
    }
}

/// The end of the line starting at `p`: the next newline or the end of the
/// source.
pub open spec fn line_end(src: Seq<char>, p: int) -> int
    decreases src.len() - p,
{
    if p < 0 || p >= src.len() || src[p] == '\n' {
        p
    } else {
        line_end(src, p + 1)
    }
}

/// A line runs to the next newline or the end of the source.
pub proof fn lemma_line_end_bounds(src: Seq<char>, p: int)
    requires
        0 <= p <= src.len(),
    ensures
        p <= line_end(src, p) <= src.len(),
        line_end(src, p) < src.len() ==> src[line_end(src, p)] == '\n',
    decreases src.len() - p,
{
    if p < src.len() && src[p] != '\n' {
        lemma_line_end_bounds(src, p + 1);
    }
}

/// The context lines after the token: the remainder of the token's own line
/// followed by the caret marker line, then up to four further lines.
pub open spec fn render_lines(
    src: Seq<char>,
    p: int,
    idx: int,
    space: Seq<char>,
    carets: Seq<char>,
) -> Seq<char>
    decreases src.len() + 1 - p,
    via render_lines_decreases
{
    if p < 0 || p >= src.len() || idx > 4 {
        Seq::empty()
    } else {
        let e = line_end(src, p);
        let piece = if idx == 0 {
            src.subrange(p, e) + "\n"@ + space + carets
        } else {
            "\n"@ + src.subrange(p, e)
        };
        piece + render_lines(src, e + 1, idx + 1, space, carets)
    }
}

#[via_fn]
proof fn render_lines_decreases(src: Seq<char>, p: int, idx: int, space: Seq<char>, carets: Seq<char>) {
    if !(p < 0 || p >= src.len() || idx > 4) {
        lemma_line_end_bounds(src, p);
    }
}

/// The full context window rendered for a token: a slice of the source from
/// a few lines before the token to the end of the token's line, the caret
/// marker line underlining the token's span, and a few following lines. Out
/// of range positions are clamped to the source.
pub open spec fn spec_render_context(src: Seq<char>, starts: Seq<usize>, t: Token) -> Seq<char> {
    let line = t.position.line as int;
    let left = if line > 3 && line - 4 < starts.len() {
        starts[line - 4] as int
    } else {
        0
    };
    let base = if line < starts.len() {
        starts[line] as int
    } else {
        0
    };
    let right0 = base + t.position.span.end as int;
    let right = if right0 > src.len() {
        src.len() as int
    } else {
        right0
    };
    let left2 = if left > right {
        right
    } else {
        left
    };
    let size = if t.position.span.end >= t.position.span.start {
        t.position.span.end - t.position.span.start
    } else {
        0
    };
    let space = spec_repeat(' ', t.position.span.start as nat);
    let carets = spec_repeat('^', size as nat);
    src.subrange(left2, right) + render_lines(src, right, 0, space, carets)
}

impl<'a> Lexer<'a> {
    /// Generates a formatted string displaying the token within its context
    /// in the source code: the source from a few lines back through the end
    /// of the token's line, a caret line underlining the token's span, and a
    /// few following lines. Useful for error messages.
    pub fn display_token_in_context(&self, token: &Token) -> (r: String)
        requires
            self.wf(),
        ensures
            r@ == spec_render_context(self.spec_src(), self.spec_line_starts(), *token),
    {
        let ghost src = self.spec_src();
        let line = token.position.line;
        let left: usize = if line > 3 && line - 4 < self.start_line_indices.len() {
            self.start_line_indices[line - 4]
        } else {
            0
        };
        let base: usize = if line < self.start_line_indices.len() {
            self.start_line_indices[line]
        } else {
            0
        };
        let right: usize = match base.checked_add(token.position.span.end) {
            Some(v) => if v > self.len {
                self.len
            } else {
                v
            },
            None => self.len,
        };
        let left2: usize = if left > right {
            right
        } else {
            left
        };
        let size: usize = if token.position.span.end >= token.position.span.start {
            token.position.span.end - token.position.span.start
        } else {
            0
        };
        let space = char_repeat(' ', token.position.span.start);
        let carets = char_repeat('^', size);
        let head = self.source.substring_char(left2, right);
        let mut result = String::from_str(head);
        let mut p = right;
        let mut idx: usize = 0;
        while p < self.len && idx <= 4
            invariant
                self.wf(),
                src == self.spec_src(),
                p <= self.len || (p == self.len + 1 && self.len < usize::MAX),
                p <= usize::MAX,
                spec_render_context(src, self.spec_line_starts(), *token) == result@
                    + render_lines(src, p as int, idx as int, space@, carets@),
            decreases self.len - p,
        {
            let mut e = p;
            while e < self.len && self.source.get_char(e) != '\n'
                invariant
                    self.wf(),
                    src == self.spec_src(),
                    p <= e <= self.len,
                    line_end(src, p as int) == line_end(src, e as int),
                decreases self.len - e,
            {
                e = e + 1;
            }
            proof {
                assert(line_end(src, e as int) == e as int);
            }
            let piece = self.source.substring_char(p, e);
            if idx == 0 {
                result.append(piece);
                result.append("\n");
                result.append(space.as_str());
                result.append(carets.as_str());
            } else {
                result.append("\n");
                result.append(piece);
            }
            proof {
                let rl = render_lines(src, p as int, idx as int, space@, carets@);
                let rest = render_lines(src, e as int + 1, idx as int + 1, space@, carets@);
                if idx == 0 {
                    assert(rl =~= (src.subrange(p as int, e as int) + "\n"@ + space@ + carets@)
                        + rest);
                } else {
                    assert(rl =~= ("\n"@ + src.subrange(p as int, e as int)) + rest);
                }
            }
            let old_p = p;
            p = if e < self.len {
                e + 1
            } else {
                self.len
            };
            idx = idx + 1;
            proof {
                if e == self.len {
                    assert(render_lines(src, e as int + 1, idx as int, space@, carets@)
                        == Seq::<char>::empty());
                    assert(render_lines(src, p as int, idx as int, space@, carets@)
                        == Seq::<char>::empty());
                }
                assert(spec_render_context(src, self.spec_line_starts(), *token) == result@
                    + render_lines(src, p as int, idx as int, space@, carets@));
            }
        }
        proof {
            assert(render_lines(src, p as int, idx as int, space@, carets@)
                == Seq::<char>::empty());
            assert(result@ =~= result@ + Seq::<char>::empty());
        }
        result
    }
}

/// A longer all-digit prefix never has a smaller value.
pub proof fn lemma_digits_val_monotone(src: Seq<char>, start: int, a: int, b: int)
    requires
        0 <= start <= a <= b <= src.len(),
        forall|j: int| start <= j < b ==> is_digit_char(#[trigger] src[j]),
    ensures
        digits_val(src.subrange(start, a)) <= digits_val(src.subrange(start, b)),
    decreases b - a,
{
    if a < b {
        lemma_digits_val_monotone(src, start, a + 1, b);
        let pre = src.subrange(start, a);
        let cur = src.subrange(start, a + 1);
        assert(cur.drop_last() =~= pre);
        assert(cur.last() == src[a]);
    }
}

/// The token sequence of a live lexer over a non-empty source is non-empty,
/// ends with the end-of-file token, and contains no other end-of-file token.
pub proof fn lemma_tokens_from_structure(
    src: Seq<char>,
    pos: int,
    line: int,
    col: int,
    toks: Seq<Token>,
)
    requires
        0 <= pos <= src.len(),
        src.len() > 0,
        tokens_from(src, pos, line, col, false, toks),
    ensures
        toks.len() > 0,
        toks.last().kind is Eof,
        forall|i: int| 0 <= i < toks.len() - 1 ==> !((#[trigger] toks[i].kind) is Eof),
    decreases (src.len() - pos) * 2 + 1int,
{
    let st = skip_ws_state(src, pos, line, col);
    let st2 = lex_step_end(src, st.pos, st.line, st.col);
    lemma_skip_ws_bounds(src, pos, line, col);
    lemma_step_progress(src, pos, line, col);
    if st.pos == src.len() {
        assert(toks[0].kind is Eof);
        assert(tokens_from(src, st2.pos, st2.line, st2.col, true, toks.drop_first()));
        assert(toks.drop_first().len() == 0);
        assert(toks.len() == 1);
    } else {
        assert(!(toks[0].kind is Eof)) by {
            if single_char_kind(src[st.pos]) is Some {
                assert(!(single_char_kind(src[st.pos])->Some_0 is Eof));
            } else if is_ident_start_char(src[st.pos]) {
                assert(ident_kind_matches(
                    src.subrange(st.pos, ident_end(src, st.pos)),
                    toks[0].kind,
                ));
            }
        }
        assert(!st2.eof);
        lemma_tokens_from_structure(src, st2.pos, st2.line, st2.col, toks.drop_first());
        assert(toks.last() == toks.drop_first().last());
        assert forall|i: int| 0 <= i < toks.len() - 1 implies !((#[trigger] toks[i].kind)
            is Eof) by {
            if i > 0 {
                assert(toks[i] == toks.drop_first()[i - 1]);
            }
        }
    }
}

/// Prepending the head token: if `t` is the token of the current state and
/// `rest` the sequence of the successor state, then `[t] + rest` is the
/// sequence of the current state.
pub proof fn lemma_tokens_from_cons(
    src: Seq<char>,
    pos: int,
    line: int,
    col: int,
    t: Token,
    rest: Seq<Token>,
)
    requires
        0 <= pos <= src.len(),
        !lex_done(src, false),
        lex_step_token(
            src,
            skip_ws_state(src, pos, line, col).pos,
            skip_ws_state(src, pos, line, col).line,
            skip_ws_state(src, pos, line, col).col,
            t,
        ),
        ({
            let st = skip_ws_state(src, pos, line, col);
            let st2 = lex_step_end(src, st.pos, st.line, st.col);
            tokens_from(src, st2.pos, st2.line, st2.col, st2.eof, rest)
        }),
    ensures
        tokens_from(src, pos, line, col, false, seq![t] + rest),
{
    let toks = seq![t] + rest;
    assert(toks[0] == t);
    assert(toks.drop_first() =~= rest);
}

} // verus!
