//! The lexical vocabulary of the schema language: keywords, the single
//! operator, braces, qualifiers and signed 32-bit number literals, together
//! with the classification of a word into a token kind.

use vstd::prelude::*;
use vstd::string::StrSliceExecFns;
use vstd::string::StringExecFns;

use crate::text::spec_int_digits;
use crate::text::i32_to_string;
use crate::text::str_eq;

verus! {

/// One located token: a kind together with its 1-based line and 0-based
/// column, used only for diagnostics.
#[derive(Debug, PartialEq)]
pub struct Token {
    pub kind: TokenKind,
    pub line: usize,
    pub column: usize,
}

/// The closed set of token kinds of the language.
#[derive(Debug, PartialEq)]
pub enum TokenKind {
    Keyword(KeywordKind),
    Operator(OperatorKind),
    BraceOpen,
    BraceClose,
    Qualifier(String),
    Number(i32),
}

/// The keywords of the language; a field-type keyword carries the primitive
/// type it spells.
#[derive(Debug, PartialEq)]
pub enum KeywordKind {
    Packet,
    Identifier,
    Auto,
    Fields,
    FieldDefinition(FieldType),
    Array,
}

/// The operators of the language.
#[derive(Debug, Clone, Copy, PartialEq, Eq, Structural)]
pub enum OperatorKind {
    Equals,
}

/// The recursive type of a field: a primitive, an array of an element type,
/// or a reference to another packet by name.
#[derive(Debug, PartialEq)]
pub enum FieldType {
    Bool,
    I8,
    I16,
    I32,
    I64,
    U8,
    U16,
    U32,
    U64,
    F32,
    F64,
    Char,
    Str,
    Array(Box<FieldType>),
    Nested(String),
}

/// The mathematical model of a `FieldType`: the same tree with the nested
/// packet name abstracted to its character sequence.
pub enum FieldTypeView {
    Bool,
    I8,
    I16,
    I32,
    I64,
    U8,
    U16,
    U32,
    U64,
    F32,
    F64,
    Char,
    Str,
    Array(Box<FieldTypeView>),
    Nested(Seq<char>),
}

/// The mathematical model of a `KeywordKind`.
pub enum KeywordKindView {
    Packet,
    Identifier,
    Auto,
    Fields,
    FieldDefinition(FieldTypeView),
    Array,
}

/// The mathematical model of a `TokenKind`.
pub enum TokenKindView {
    Keyword(KeywordKindView),
    Operator(OperatorKind),
    BraceOpen,
    BraceClose,
    Qualifier(Seq<char>),
    Number(i32),
}

/// The mathematical model of a `Token`.
pub struct TokenView {
    pub kind: TokenKindView,
    pub line: int,
    pub column: int,
}

/// The model of a field type, defined by structural recursion.
pub open spec fn spec_field_type_view(t: FieldType) -> FieldTypeView
    decreases t,
{
    match t {
        FieldType::Bool => FieldTypeView::Bool,
        FieldType::I8 => FieldTypeView::I8,
        FieldType::I16 => FieldTypeView::I16,
        FieldType::I32 => FieldTypeView::I32,
        FieldType::I64 => FieldTypeView::I64,
        FieldType::U8 => FieldTypeView::U8,
        FieldType::U16 => FieldTypeView::U16,
        FieldType::U32 => FieldTypeView::U32,
        FieldType::U64 => FieldTypeView::U64,
        FieldType::F32 => FieldTypeView::F32,
        FieldType::F64 => FieldTypeView::F64,
        FieldType::Char => FieldTypeView::Char,
        FieldType::Str => FieldTypeView::Str,
        FieldType::Array(t) => FieldTypeView::Array(Box::new(spec_field_type_view(*t))),
        FieldType::Nested(s) => FieldTypeView::Nested(s@),
    }
}

impl View for FieldType {
    type V = FieldTypeView;

    open spec fn view(&self) -> FieldTypeView {
        spec_field_type_view(*self)
    }
}

impl DeepView for FieldType {
    type V = FieldTypeView;

    open spec fn deep_view(&self) -> FieldTypeView {
        self.view()
    }
}

impl View for KeywordKind {
    type V = KeywordKindView;

    open spec fn view(&self) -> KeywordKindView {
        match self {
            KeywordKind::Packet => KeywordKindView::Packet,
            KeywordKind::Identifier => KeywordKindView::Identifier,
            KeywordKind::Auto => KeywordKindView::Auto,
            KeywordKind::Fields => KeywordKindView::Fields,
            KeywordKind::FieldDefinition(t) => KeywordKindView::FieldDefinition(t.view()),
            KeywordKind::Array => KeywordKindView::Array,
        }
    }
}

impl DeepView for KeywordKind {
    type V = KeywordKindView;

    open spec fn deep_view(&self) -> KeywordKindView {
        self.view()
    }
}

impl View for TokenKind {
    type V = TokenKindView;

    open spec fn view(&self) -> TokenKindView {
        match self {
            TokenKind::Keyword(k) => TokenKindView::Keyword(k.view()),
            TokenKind::Operator(o) => TokenKindView::Operator(*o),
            TokenKind::BraceOpen => TokenKindView::BraceOpen,
            TokenKind::BraceClose => TokenKindView::BraceClose,
            TokenKind::Qualifier(s) => TokenKindView::Qualifier(s@),
            TokenKind::Number(n) => TokenKindView::Number(*n),
        }
    }
}

impl DeepView for TokenKind {
    type V = TokenKindView;

    open spec fn deep_view(&self) -> TokenKindView {
        self.view()
    }
}

impl View for Token {
    type V = TokenView;

    open spec fn view(&self) -> TokenView {
        TokenView { kind: self.kind.view(), line: self.line as int, column: self.column as int }
    }
}

impl DeepView for Token {
    type V = TokenView;

    open spec fn deep_view(&self) -> TokenView {
        self.view()
    }
}

impl Clone for FieldType {
    fn clone(&self) -> (r: Self)
        ensures
            r@ == self@,
        decreases self,
    {
        match self {
            FieldType::Bool => FieldType::Bool,
            FieldType::I8 => FieldType::I8,
            FieldType::I16 => FieldType::I16,
            FieldType::I32 => FieldType::I32,
            FieldType::I64 => FieldType::I64,
            FieldType::U8 => FieldType::U8,
            FieldType::U16 => FieldType::U16,
            FieldType::U32 => FieldType::U32,
            FieldType::U64 => FieldType::U64,
            FieldType::F32 => FieldType::F32,
            FieldType::F64 => FieldType::F64,
            FieldType::Char => FieldType::Char,
            FieldType::Str => FieldType::Str,
            FieldType::Array(t) => FieldType::Array(Box::new((**t).clone())),
            FieldType::Nested(s) => FieldType::Nested(s.clone()),
        }
    }
}

impl Clone for KeywordKind {
    fn clone(&self) -> (r: Self)
        ensures
            r@ == self@,
    {
        match self {
            KeywordKind::Packet => KeywordKind::Packet,
            KeywordKind::Identifier => KeywordKind::Identifier,
            KeywordKind::Auto => KeywordKind::Auto,
            KeywordKind::Fields => KeywordKind::Fields,
            KeywordKind::FieldDefinition(t) => KeywordKind::FieldDefinition(t.clone()),
            KeywordKind::Array => KeywordKind::Array,
        }
    }
}

impl Clone for TokenKind {
    fn clone(&self) -> (r: Self)
        ensures
            r@ == self@,
    {
        match self {
            TokenKind::Keyword(k) => TokenKind::Keyword(k.clone()),
            TokenKind::Operator(o) => TokenKind::Operator(*o),
            TokenKind::BraceOpen => TokenKind::BraceOpen,
            TokenKind::BraceClose => TokenKind::BraceClose,
            TokenKind::Qualifier(s) => TokenKind::Qualifier(s.clone()),
            TokenKind::Number(n) => TokenKind::Number(*n),
        }
    }
}

impl Clone for Token {
    fn clone(&self) -> (r: Self)
        ensures
            r@ == self@,
    {
        Token { kind: self.kind.clone(), line: self.line, column: self.column }
    }
}

/// Structural equality of field types, matching equality of their models.
pub fn field_type_eq(a: &FieldType, b: &FieldType) -> (r: bool)
    ensures
        r == (a@ == b@),
    decreases a,
{
    match (a, b) {
        (FieldType::Bool, FieldType::Bool) => true,
        (FieldType::I8, FieldType::I8) => true,
        (FieldType::I16, FieldType::I16) => true,
        (FieldType::I32, FieldType::I32) => true,
        (FieldType::I64, FieldType::I64) => true,
        (FieldType::U8, FieldType::U8) => true,
        (FieldType::U16, FieldType::U16) => true,
        (FieldType::U32, FieldType::U32) => true,
        (FieldType::U64, FieldType::U64) => true,
        (FieldType::F32, FieldType::F32) => true,
        (FieldType::F64, FieldType::F64) => true,
        (FieldType::Char, FieldType::Char) => true,
        (FieldType::Str, FieldType::Str) => true,
        (FieldType::Array(x), FieldType::Array(y)) => field_type_eq(x, y),
        (FieldType::Nested(s), FieldType::Nested(t)) => str_eq(s.as_str(), t.as_str()),
        _ => false,
    }
}

/// Equality of keyword kinds, matching equality of their models.
pub fn keyword_kind_eq(a: &KeywordKind, b: &KeywordKind) -> (r: bool)
    ensures
        r == (a@ == b@),
{
    match (a, b) {
        (KeywordKind::Packet, KeywordKind::Packet) => true,
        (KeywordKind::Identifier, KeywordKind::Identifier) => true,
        (KeywordKind::Auto, KeywordKind::Auto) => true,
        (KeywordKind::Fields, KeywordKind::Fields) => true,
        (KeywordKind::FieldDefinition(x), KeywordKind::FieldDefinition(y)) => field_type_eq(x, y),
        (KeywordKind::Array, KeywordKind::Array) => true,
        _ => false,
    }
}

/// Equality of token kinds, matching equality of their models.
pub fn token_kind_eq(a: &TokenKind, b: &TokenKind) -> (r: bool)
    ensures
        r == (a@ == b@),
{
    match (a, b) {
        (TokenKind::Keyword(x), TokenKind::Keyword(y)) => keyword_kind_eq(x, y),
        (TokenKind::Operator(x), TokenKind::Operator(y)) => *x == *y,
        (TokenKind::BraceOpen, TokenKind::BraceOpen) => true,
        (TokenKind::BraceClose, TokenKind::BraceClose) => true,
        (TokenKind::Qualifier(s), TokenKind::Qualifier(t)) => str_eq(s.as_str(), t.as_str()),
        (TokenKind::Number(x), TokenKind::Number(y)) => *x == *y,
        _ => false,
    }
}

/// Whether a character is a decimal digit.
pub open spec fn is_digit(c: char) -> bool {
    48 <= c as u32 && c as u32 <= 57
}

/// The numeric value of a decimal digit character.
pub open spec fn digit_val(c: char) -> int {
    c as u32 - 48
}

/// Whether every character of the sequence is a decimal digit.
pub open spec fn all_digits(s: Seq<char>) -> bool {
    forall|i: int| 0 <= i < s.len() ==> is_digit(s[i])
}

/// The value of a sequence of decimal digits, most significant first.
pub open spec fn digits_val(s: Seq<char>) -> int
    decreases s.len(),
{
    if s.len() == 0 {
        0
    } else {
        digits_val(s.drop_last()) * 10 + digit_val(s.last())
    }
}

/// What parsing a word as a base-10 signed 32-bit integer yields: an
/// optional sign, then one or more digits, with the value in range;
/// anything else is rejected.
pub open spec fn spec_parse_i32(s: Seq<char>) -> Option<i32> {
    if s.len() == 0 {
        None
    } else {
        let neg = s[0] == '-';
        let ds = if s[0] == '-' || s[0] == '+' {
            s.drop_first()
        } else {
            s
        };
        if ds.len() == 0 || !all_digits(ds) {
            None
        } else {
            let v = digits_val(ds);
            if neg {
                if v <= 2147483648 {
                    Some((-v) as i32)
                } else {
                    None
                }
            } else {
                if v <= 2147483647 {
                    Some(v as i32)
                } else {
                    None
                }
            }
        }
    }
}

proof fn lemma_digits_val_nonneg(s: Seq<char>)
    requires
        all_digits(s),
    ensures
        digits_val(s) >= 0,
    decreases s.len(),
{
    if s.len() > 0 {
        assert(all_digits(s.drop_last()));
        lemma_digits_val_nonneg(s.drop_last());
    }
}

/// Parses a word as a base-10 signed 32-bit integer, accepting exactly what
/// `spec_parse_i32` accepts.
pub fn parse_i32(s: &str) -> (r: Option<i32>)
    ensures
        r == spec_parse_i32(s@),
{
    let n = s.unicode_len();
    if n == 0 {
        return None;
    }
    let first = s.get_char(0);
    let neg = first == '-';
    let has_sign = first == '-' || first == '+';
    let start: usize = if has_sign {
        1
    } else {
        0
    };
    let ghost ds = if has_sign {
        s@.drop_first()
    } else {
        s@
    };
    if start == n {
        return None;
    }
    let mut acc: u64 = 0;
    let mut i: usize = start;
    proof {
        assert(ds.take(0) =~= Seq::<char>::empty());
    }
    while i < n
        invariant
            start <= i <= n,
            1 <= n == s@.len(),
            has_sign == (s@[0] == '-' || s@[0] == '+'),
            neg == (s@[0] == '-'),
            start == if has_sign { 1int } else { 0int },
            ds == if has_sign { s@.drop_first() } else { s@ },
            ds.len() == n - start,
            all_digits(ds.take(i - start)),
            (acc < 3000000000 && acc == digits_val(ds.take(i - start))) || (acc == 3000000000
                && digits_val(ds.take(i - start)) >= 3000000000),
        decreases n - i,
    {
        let c = s.get_char(i);
        let cu = c as u32;
        proof {
            assert(ds[i - start] == s@[i as int]);
        }
        if cu < 48 || cu > 57 {
            proof {
                assert(!is_digit(ds[i - start]));
                assert(!all_digits(ds));
            }
            return None;
        }
        let d = (cu - 48) as u64;
        let ghost prefix = ds.take(i - start);
        proof {
            assert(ds.take(i - start + 1) =~= prefix.push(ds[i - start]));
            assert(prefix.push(ds[i - start]).drop_last() =~= prefix);
            assert(prefix.push(ds[i - start]).last() == ds[i - start]);
            assert(digits_val(prefix.push(ds[i - start])) == digits_val(prefix) * 10 + digit_val(
                ds[i - start],
            ));
            lemma_digits_val_nonneg(prefix);
            assert(all_digits(prefix.push(ds[i - start])));
        }
        if acc >= 3000000000 {
            acc = 3000000000;
        } else {
            let next = acc * 10 + d;
            acc = if next >= 3000000000 {
                3000000000
            } else {
                next
            };
        }
        i = i + 1;
    }
    proof {
        assert(ds.take(i - start) =~= ds);
    }
    if neg {
        if acc <= 2147483648 {
            let r: i32 = if acc == 2147483648 {
                -2147483647 - 1
            } else {
                -(acc as i32)
            };
            Some(r)
        } else {
            None
        }
    } else {
        if acc <= 2147483647 {
            Some(acc as i32)
        } else {
            None
        }
    }
}

/// What classifying a word yields: a keyword, operator or brace for the
/// fixed spellings, else a number if the word parses as an `i32`, else a
/// qualifier holding the word itself.
pub open spec fn spec_token_kind_of(s: Seq<char>) -> TokenKindView {
    if s == "packet"@ {
        TokenKindView::Keyword(KeywordKindView::Packet)
    } else if s == "id"@ {
        TokenKindView::Keyword(KeywordKindView::Identifier)
    } else if s == "auto"@ {
        TokenKindView::Keyword(KeywordKindView::Auto)
    } else if s == "="@ {
        TokenKindView::Operator(OperatorKind::Equals)
    } else if s == "{"@ {
        TokenKindView::BraceOpen
    } else if s == "}"@ {
        TokenKindView::BraceClose
    } else if s == "fields"@ {
        TokenKindView::Keyword(KeywordKindView::Fields)
    } else if s == "array"@ {
        TokenKindView::Keyword(KeywordKindView::Array)
    } else if s == "bool"@ || s == "boolean"@ {
        TokenKindView::Keyword(KeywordKindView::FieldDefinition(FieldTypeView::Bool))
    } else if s == "i8"@ || s == "byte"@ {
        TokenKindView::Keyword(KeywordKindView::FieldDefinition(FieldTypeView::I8))
    } else if s == "i16"@ || s == "short"@ {
        TokenKindView::Keyword(KeywordKindView::FieldDefinition(FieldTypeView::I16))
    } else if s == "i32"@ || s == "int"@ {
        TokenKindView::Keyword(KeywordKindView::FieldDefinition(FieldTypeView::I32))
    } else if s == "i64"@ || s == "long"@ {
        TokenKindView::Keyword(KeywordKindView::FieldDefinition(FieldTypeView::I64))
    } else if s == "u8"@ || s == "ubyte"@ {
        TokenKindView::Keyword(KeywordKindView::FieldDefinition(FieldTypeView::U8))
    } else if s == "u16"@ || s == "ushort"@ {
        TokenKindView::Keyword(KeywordKindView::FieldDefinition(FieldTypeView::U16))
    } else if s == "u32"@ || s == "uint"@ {
        TokenKindView::Keyword(KeywordKindView::FieldDefinition(FieldTypeView::U32))
    } else if s == "u64"@ || s == "ulong"@ {
        TokenKindView::Keyword(KeywordKindView::FieldDefinition(FieldTypeView::U64))
    } else if s == "f32"@ || s == "float"@ {
        TokenKindView::Keyword(KeywordKindView::FieldDefinition(FieldTypeView::F32))
    } else if s == "f64"@ || s == "double"@ {
        TokenKindView::Keyword(KeywordKindView::FieldDefinition(FieldTypeView::F64))
    } else if s == "char"@ {
        TokenKindView::Keyword(KeywordKindView::FieldDefinition(FieldTypeView::Char))
    } else if s == "string"@ || s == "str"@ {
        TokenKindView::Keyword(KeywordKindView::FieldDefinition(FieldTypeView::Str))
    } else {
        match spec_parse_i32(s) {
            Some(v) => TokenKindView::Number(v),
            None => TokenKindView::Qualifier(s),
        }
    }
}

/// Classifies one word of input; every word is classified, so the result is
/// never `None`.
pub fn as_token_kind(content: &str) -> (r: Option<TokenKind>)
    ensures
        r matches Some(k) && k@ == spec_token_kind_of(content@),
{
    let kind = if str_eq(content, "packet") {
        TokenKind::Keyword(KeywordKind::Packet)
    } else if str_eq(content, "id") {
        TokenKind::Keyword(KeywordKind::Identifier)
    } else if str_eq(content, "auto") {
        TokenKind::Keyword(KeywordKind::Auto)
    } else if str_eq(content, "=") {
        TokenKind::Operator(OperatorKind::Equals)
    } else if str_eq(content, "{") {
        TokenKind::BraceOpen
    } else if str_eq(content, "}") {
        TokenKind::BraceClose
    } else if str_eq(content, "fields") {
        TokenKind::Keyword(KeywordKind::Fields)
    } else if str_eq(content, "array") {
        TokenKind::Keyword(KeywordKind::Array)
    } else if str_eq(content, "bool") || str_eq(content, "boolean") {
        TokenKind::Keyword(KeywordKind::FieldDefinition(FieldType::Bool))
    } else if str_eq(content, "i8") || str_eq(content, "byte") {
        TokenKind::Keyword(KeywordKind::FieldDefinition(FieldType::I8))
    } else if str_eq(content, "i16") || str_eq(content, "short") {
        TokenKind::Keyword(KeywordKind::FieldDefinition(FieldType::I16))
    } else if str_eq(content, "i32") || str_eq(content, "int") {
        TokenKind::Keyword(KeywordKind::FieldDefinition(FieldType::I32))
    } else if str_eq(content, "i64") || str_eq(content, "long") {
        TokenKind::Keyword(KeywordKind::FieldDefinition(FieldType::I64))
    } else if str_eq(content, "u8") || str_eq(content, "ubyte") {
        TokenKind::Keyword(KeywordKind::FieldDefinition(FieldType::U8))
    } else if str_eq(content, "u16") || str_eq(content, "ushort") {
        TokenKind::Keyword(KeywordKind::FieldDefinition(FieldType::U16))
    } else if str_eq(content, "u32") || str_eq(content, "uint") {
        TokenKind::Keyword(KeywordKind::FieldDefinition(FieldType::U32))
    } else if str_eq(content, "u64") || str_eq(content, "ulong") {
        TokenKind::Keyword(KeywordKind::FieldDefinition(FieldType::U64))
    } else if str_eq(content, "f32") || str_eq(content, "float") {
        TokenKind::Keyword(KeywordKind::FieldDefinition(FieldType::F32))
    } else if str_eq(content, "f64") || str_eq(content, "double") {
        TokenKind::Keyword(KeywordKind::FieldDefinition(FieldType::F64))
    } else if str_eq(content, "char") {
        TokenKind::Keyword(KeywordKind::FieldDefinition(FieldType::Char))
    } else if str_eq(content, "string") || str_eq(content, "str") {
        TokenKind::Keyword(KeywordKind::FieldDefinition(FieldType::Str))
    } else {
        match parse_i32(content) {
            Some(num) => TokenKind::Number(num),
            None => TokenKind::Qualifier(String::from_str(content)),
        }
    };
    Some(kind)
}

/// The rendering of a field type for diagnostics.
pub open spec fn spec_field_type_string(t: FieldTypeView) -> Seq<char>
    decreases t,
{
    match t {
        FieldTypeView::Bool => "bool"@,
        FieldTypeView::I8 => "i8"@,
        FieldTypeView::I16 => "i16"@,
        FieldTypeView::I32 => "i32"@,
        FieldTypeView::I64 => "i64"@,
        FieldTypeView::U8 => "u8"@,
        FieldTypeView::U16 => "u16"@,
        FieldTypeView::U32 => "u32"@,
        FieldTypeView::U64 => "u64"@,
        FieldTypeView::F32 => "f32"@,
        FieldTypeView::F64 => "f64"@,
        FieldTypeView::Char => "char"@,
        FieldTypeView::Str => "str"@,
        FieldTypeView::Array(inner) => "array["@ + spec_field_type_string(*inner) + "]"@,
        FieldTypeView::Nested(name) => name,
    }
}

/// The rendering of a keyword for diagnostics.
pub open spec fn spec_keyword_string(k: KeywordKindView) -> Seq<char> {
    match k {
        KeywordKindView::Packet => "packet"@,
        KeywordKindView::Identifier => "id"@,
        KeywordKindView::Auto => "auto"@,
        KeywordKindView::Fields => "fields"@,
        KeywordKindView::FieldDefinition(t) => spec_field_type_string(t),
        KeywordKindView::Array => "array"@,
    }
}

/// The rendering of a token kind for diagnostics.
pub open spec fn spec_token_kind_string(k: TokenKindView) -> Seq<char> {
    match k {
        TokenKindView::Keyword(kw) => spec_keyword_string(kw),
        TokenKindView::Operator(o) => "="@,
        TokenKindView::BraceOpen => "{"@,
        TokenKindView::BraceClose => "}"@,
        TokenKindView::Qualifier(q) => q,
        TokenKindView::Number(n) => spec_int_digits(n as int),
    }
}

/// Renders a field type for diagnostics.
pub fn field_type_to_string(t: &FieldType) -> (r: String)
    ensures
        r@ == spec_field_type_string(t@),
    decreases t,
{
    match t {
        FieldType::Bool => String::from_str("bool"),
        FieldType::I8 => String::from_str("i8"),
        FieldType::I16 => String::from_str("i16"),
        FieldType::I32 => String::from_str("i32"),
        FieldType::I64 => String::from_str("i64"),
        FieldType::U8 => String::from_str("u8"),
        FieldType::U16 => String::from_str("u16"),
        FieldType::U32 => String::from_str("u32"),
        FieldType::U64 => String::from_str("u64"),
        FieldType::F32 => String::from_str("f32"),
        FieldType::F64 => String::from_str("f64"),
        FieldType::Char => String::from_str("char"),
        FieldType::Str => String::from_str("str"),
        FieldType::Array(inner) => {
            let mut out = String::from_str("array[");
            let body = field_type_to_string(inner);
            out.append(body.as_str());
            out.append("]");
            out
        },
        FieldType::Nested(name) => name.clone(),
    }
}

/// Renders a keyword for diagnostics.
pub fn keyword_to_string(k: &KeywordKind) -> (r: String)
    ensures
        r@ == spec_keyword_string(k@),
{
    match k {
        KeywordKind::Packet => String::from_str("packet"),
        KeywordKind::Identifier => String::from_str("id"),
        KeywordKind::Auto => String::from_str("auto"),
        KeywordKind::Fields => String::from_str("fields"),
        KeywordKind::FieldDefinition(t) => field_type_to_string(t),
        KeywordKind::Array => String::from_str("array"),
    }
}

/// Renders a token kind for diagnostics.
pub fn token_kind_to_string(k: &TokenKind) -> (r: String)
    ensures
        r@ == spec_token_kind_string(k@),
{
    match k {
        TokenKind::Keyword(kw) => keyword_to_string(kw),
        TokenKind::Operator(o) => String::from_str("="),
        TokenKind::BraceOpen => String::from_str("{"),
        TokenKind::BraceClose => String::from_str("}"),
        TokenKind::Qualifier(q) => q.clone(),
        TokenKind::Number(n) => i32_to_string(*n),
    }
}

} // verus!
