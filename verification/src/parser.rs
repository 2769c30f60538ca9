//! The recursive-descent parser: consumes the token sequence and produces
//! the packet list, accumulating syntax errors per packet instead of
//! stopping at the first, and resynchronizing at the next plausible start.

use vstd::prelude::*;
use vstd::string::StringExecFns;

use crate::error::MorphError;
use crate::error::MorphErrorView;
use crate::error::MorphResult;
use crate::error::MorphResultView;
use crate::error::ParserError;
use crate::error::ParserErrorView;
use crate::text::concat3;
use crate::text::concat5;
use crate::token::keyword_kind_eq;
use crate::token::keyword_to_string;
use crate::token::spec_keyword_string;
use crate::token::spec_token_kind_string;
use crate::token::token_kind_eq;
use crate::token::token_kind_to_string;
use crate::token::FieldType;
use crate::token::FieldTypeView;
use crate::token::KeywordKind;
use crate::token::KeywordKindView;
use crate::token::OperatorKind;
use crate::token::Token;
use crate::token::TokenKind;
use crate::token::TokenKindView;
use crate::token::TokenView;

verus! {

/// One field of a packet: its type and its name.
#[derive(Debug, PartialEq)]
pub struct Field {
    pub typ: FieldType,
    pub name: String,
}

/// One parsed packet: its wire id, whether the id is assigned
/// automatically, its name, and its fields in declaration order.
#[derive(Debug, PartialEq)]
pub struct Packet {
    pub id: i32,
    pub is_auto: bool,
    pub name: String,
    pub fields: Vec<Field>,
}

/// The model of a `Field`.
pub struct FieldView {
    pub typ: FieldTypeView,
    pub name: Seq<char>,
}

/// The model of a `Packet`.
pub struct PacketView {
    pub id: int,
    pub is_auto: bool,
    pub name: Seq<char>,
    pub fields: Seq<FieldView>,
}

impl View for Field {
    type V = FieldView;

    open spec fn view(&self) -> FieldView {
        FieldView { typ: self.typ@, name: self.name@ }
    }
}

impl DeepView for Field {
    type V = FieldView;

    open spec fn deep_view(&self) -> FieldView {
        self.view()
    }
}

impl View for Packet {
    type V = PacketView;

    open spec fn view(&self) -> PacketView {
        PacketView {
            id: self.id as int,
            is_auto: self.is_auto,
            name: self.name@,
            fields: self.fields.deep_view(),
        }
    }
}

impl DeepView for Packet {
    type V = PacketView;

    open spec fn deep_view(&self) -> PacketView {
        self.view()
    }
}

impl Clone for Field {
    fn clone(&self) -> (r: Self)
        ensures
            r@ == self@,
    {
        Field { typ: self.typ.clone(), name: self.name.clone() }
    }
}

impl Clone for Packet {
    fn clone(&self) -> (r: Self)
        ensures
            r@ == self@,
    {
        let mut fields: Vec<Field> = Vec::new();
        let mut i: usize = 0;
        while i < self.fields.len()
            invariant
                0 <= i <= self.fields@.len(),
                fields.deep_view() =~= self.fields.deep_view().take(i as int),
            decreases self.fields@.len() - i,
        {
            let f = self.fields[i].clone();
            proof {
                assert(f@ == self.fields@[i as int]@);
                assert(self.fields.deep_view()[i as int] == self.fields@[i as int].deep_view());
            }
            let ghost df0 = fields.deep_view();
            let ghost v0 = fields@;
            fields.push(f);
            proof {
                assert(df0.len() == v0.len());
                assert(df0 == self.fields.deep_view().take(i as int));
                assert(v0.len() == i);
                assert(fields@ == v0.push(f));
                assert(fields@.len() == i + 1);
                assert forall|j: int| 0 <= j < i + 1 implies fields.deep_view()[j]
                    == self.fields.deep_view().take(i + 1)[j] by {
                    if j < i {
                        assert(fields@[j] == v0[j]);
                        assert(df0[j] == self.fields.deep_view()[j]);
                    } else {
                        assert(fields@[j] == f);
                    }
                }
                assert(fields.deep_view() =~= self.fields.deep_view().take(i + 1));
            }
            i = i + 1;
        }
        proof {
            assert(fields.deep_view() =~= self.fields.deep_view());
        }
        Packet { id: self.id, is_auto: self.is_auto, name: self.name.clone(), fields }
    }
}

/// A parser error as a front-end error value.
pub open spec fn spec_parser_error(message: Seq<char>, token: Option<TokenView>) -> MorphErrorView {
    MorphErrorView::Parser(ParserErrorView { message, token })
}

/// The error reported when the token sequence ends too early.
pub open spec fn spec_eot_error() -> MorphErrorView {
    spec_parser_error("Unexpected end of tokens"@, None)
}

/// The errors of a step's result, empty on success.
pub open spec fn spec_errs_of<U>(r: MorphResultView<U>) -> Seq<MorphErrorView> {
    match r {
        MorphResultView::Success(_) => Seq::<MorphErrorView>::empty(),
        MorphResultView::Errors(es) => es,
    }
}

/// Peeking: whether the next token has exactly the expected kind; a match
/// consumes it.
pub open spec fn spec_has_token(ts: Seq<TokenView>, pos: int, expected: TokenKindView) -> (
    bool,
    int,
) {
    if pos < ts.len() && ts[pos].kind == expected {
        (true, pos + 1)
    } else {
        (false, pos)
    }
}

/// Peeking without consuming: whether the next token is the expected
/// keyword.
pub open spec fn spec_has_keyword(ts: Seq<TokenView>, pos: int, expected: KeywordKindView) -> bool {
    pos < ts.len() && (ts[pos].kind matches TokenKindView::Keyword(k) && k == expected)
}

/// Consuming one token and demanding an exact kind: the end of input and a
/// mismatch each yield one error; a mismatch still consumes the token.
pub open spec fn spec_expect_kind(ts: Seq<TokenView>, pos: int, expected: TokenKindView) -> (
    MorphResultView<()>,
    int,
) {
    if pos >= ts.len() {
        (MorphResultView::Errors(seq![spec_eot_error()]), pos)
    } else if ts[pos].kind == expected {
        (MorphResultView::Success(()), pos + 1)
    } else {
        (
            MorphResultView::Errors(
                seq![
                    spec_parser_error(
                        "Expected '"@ + spec_token_kind_string(expected) + "', but got '"@
                            + spec_token_kind_string(ts[pos].kind) + "'"@,
                        Some(ts[pos]),
                    ),
                ],
            ),
            pos + 1,
        )
    }
}

/// Consuming one token that must be a qualifier, yielding the packet name.
pub open spec fn spec_parse_packet_qualifier(ts: Seq<TokenView>, pos: int) -> (
    MorphResultView<Seq<char>>,
    int,
) {
    if pos >= ts.len() {
        (MorphResultView::Errors(seq![spec_eot_error()]), pos)
    } else {
        match ts[pos].kind {
            TokenKindView::Qualifier(name) => (MorphResultView::Success(name), pos + 1),
            _ => (
                MorphResultView::Errors(
                    seq![
                        spec_parser_error(
                            "Expected packet qualifier, but got '"@ + spec_token_kind_string(
                                ts[pos].kind,
                            ) + "'"@,
                            Some(ts[pos]),
                        ),
                    ],
                ),
                pos + 1,
            ),
        }
    }
}

/// Consuming one token that must be a given keyword.
pub open spec fn spec_parse_keyword(ts: Seq<TokenView>, pos: int, expected: KeywordKindView) -> (
    MorphResultView<()>,
    int,
) {
    if pos >= ts.len() {
        (MorphResultView::Errors(seq![spec_eot_error()]), pos)
    } else {
        match ts[pos].kind {
            TokenKindView::Keyword(k) => if k == expected {
                (MorphResultView::Success(()), pos + 1)
            } else {
                (
                    MorphResultView::Errors(
                        seq![
                            spec_parser_error(
                                "Expected keyword '"@ + spec_keyword_string(expected)
                                    + "', but got another keyword '"@ + spec_keyword_string(k),
                                Some(ts[pos]),
                            ),
                        ],
                    ),
                    pos + 1,
                )
            },
            _ => (
                MorphResultView::Errors(
                    seq![
                        spec_parser_error(
                            "Expected keyword '"@ + spec_keyword_string(expected) + "', but got '"@
                                + spec_token_kind_string(ts[pos].kind),
                            Some(ts[pos]),
                        ),
                    ],
                ),
                pos + 1,
            ),
        }
    }
}

/// Consuming one token that must be a given operator.
pub open spec fn spec_parse_operator(ts: Seq<TokenView>, pos: int, expected: OperatorKind) -> (
    MorphResultView<()>,
    int,
) {
    if pos >= ts.len() {
        (MorphResultView::Errors(seq![spec_eot_error()]), pos)
    } else {
        match ts[pos].kind {
            TokenKindView::Operator(k) => if k == expected {
                (MorphResultView::Success(()), pos + 1)
            } else {
                (
                    MorphResultView::Errors(
                        seq![
                            spec_parser_error(
                                "Expected operator '"@ + "="@ + "', but got operator '"@ + "="@
                                    + "'"@,
                                Some(ts[pos]),
                            ),
                        ],
                    ),
                    pos + 1,
                )
            },
            _ => (
                MorphResultView::Errors(
                    seq![
                        spec_parser_error(
                            "Expected operator '"@ + "="@ + "', but got '"@
                                + spec_token_kind_string(ts[pos].kind) + "'"@,
                            Some(ts[pos]),
                        ),
                    ],
                ),
                pos + 1,
            ),
        }
    }
}

/// Consuming one token that must be a number literal, yielding its value.
pub open spec fn spec_parse_i32_number(ts: Seq<TokenView>, pos: int) -> (
    MorphResultView<i32>,
    int,
) {
    if pos >= ts.len() {
        (MorphResultView::Errors(seq![spec_eot_error()]), pos)
    } else {
        match ts[pos].kind {
            TokenKindView::Number(n) => (MorphResultView::Success(n), pos + 1),
            _ => (
                MorphResultView::Errors(
                    seq![
                        spec_parser_error(
                            "Expected i32 number, but got '"@ + spec_token_kind_string(ts[pos].kind)
                                + "'"@,
                            Some(ts[pos]),
                        ),
                    ],
                ),
                pos + 1,
            ),
        }
    }
}

/// Consuming one token that must be a qualifier naming the field, yielding
/// the field of the given type.
pub open spec fn spec_parse_simple_field(ts: Seq<TokenView>, pos: int, typ: FieldTypeView) -> (
    MorphResultView<FieldView>,
    int,
) {
    if pos >= ts.len() {
        (MorphResultView::Errors(seq![spec_eot_error()]), pos)
    } else {
        match ts[pos].kind {
            TokenKindView::Qualifier(name) => (
                MorphResultView::Success(FieldView { typ, name }),
                pos + 1,
            ),
            _ => (
                MorphResultView::Errors(
                    seq![
                        spec_parser_error(
                            "Expected field name, but got '"@ + spec_token_kind_string(ts[pos].kind)
                                + "'"@,
                            Some(ts[pos]),
                        ),
                    ],
                ),
                pos + 1,
            ),
        }
    }
}

/// An array field after the `array` keyword: one element type, which may
/// not itself be an array, then the field name; the field's type wraps the
/// element type in one array.
pub open spec fn spec_parse_array_field(ts: Seq<TokenView>, pos: int) -> (
    MorphResultView<FieldView>,
    int,
) {
    if pos >= ts.len() {
        (MorphResultView::Errors(seq![spec_eot_error()]), pos)
    } else {
        match ts[pos].kind {
            TokenKindView::Keyword(k) => match k {
                KeywordKindView::FieldDefinition(element) => spec_parse_simple_field(
                    ts,
                    pos + 1,
                    FieldTypeView::Array(Box::new(element)),
                ),
                KeywordKindView::Array => (
                    MorphResultView::Errors(
                        seq![
                            spec_parser_error("Nested arrays are not allowed"@, Some(ts[pos])),
                        ],
                    ),
                    pos + 1,
                ),
                _ => (
                    MorphResultView::Errors(
                        seq![
                            spec_parser_error(
                                "Expected field type or array keyword field type, but got '"@
                                    + spec_token_kind_string(ts[pos].kind) + "'"@,
                                Some(ts[pos]),
                            ),
                        ],
                    ),
                    pos + 1,
                ),
            },
            TokenKindView::Qualifier(name) => spec_parse_simple_field(
                ts,
                pos + 1,
                FieldTypeView::Array(Box::new(FieldTypeView::Nested(name))),
            ),
            _ => (
                MorphResultView::Errors(
                    seq![
                        spec_parser_error(
                            "Expected array field type, but got '"@ + spec_token_kind_string(
                                ts[pos].kind,
                            ) + "'"@,
                            Some(ts[pos]),
                        ),
                    ],
                ),
                pos + 1,
            ),
        }
    }
}

/// The field declarations from `pos` up to the closing brace: the fields
/// parsed, the errors accumulated, and the position reached.  A malformed
/// declaration contributes one error and parsing resynchronizes at the next
/// plausible field start; a token that cannot start a field stops the scan.
pub open spec fn spec_parse_fields(ts: Seq<TokenView>, pos: int) -> (
    Seq<FieldView>,
    Seq<MorphErrorView>,
    int,
)
    decreases ts.len() - pos,
    when 0 <= pos <= ts.len()
{
    if pos >= ts.len() {
        (Seq::<FieldView>::empty(), Seq::<MorphErrorView>::empty(), pos)
    } else {
        match ts[pos].kind {
            TokenKindView::Keyword(k) => match k {
                KeywordKindView::FieldDefinition(ft) => {
                    let (r, p2) = spec_parse_simple_field(ts, pos + 1, ft);
                    let (fs, es, p3) = spec_parse_fields(ts, p2);
                    match r {
                        MorphResultView::Success(f) => (seq![f] + fs, es, p3),
                        MorphResultView::Errors(e1) => (fs, e1 + es, p3),
                    }
                },
                KeywordKindView::Array => {
                    let (r, p2) = spec_parse_array_field(ts, pos + 1);
                    let (fs, es, p3) = spec_parse_fields(ts, p2);
                    match r {
                        MorphResultView::Success(f) => (seq![f] + fs, es, p3),
                        MorphResultView::Errors(e1) => (fs, e1 + es, p3),
                    }
                },
                _ => (
                    Seq::<FieldView>::empty(),
                    seq![
                        spec_parser_error(
                            "Expected field type or array keyword, but got '"@
                                + spec_token_kind_string(ts[pos].kind) + "'"@,
                            Some(ts[pos]),
                        ),
                    ],
                    pos,
                ),
            },
            TokenKindView::Qualifier(name) => {
                let (r, p2) = spec_parse_simple_field(ts, pos + 1, FieldTypeView::Nested(name));
                let (fs, es, p3) = spec_parse_fields(ts, p2);
                match r {
                    MorphResultView::Success(f) => (seq![f] + fs, es, p3),
                    MorphResultView::Errors(e1) => (fs, e1 + es, p3),
                }
            },
            TokenKindView::BraceClose => (
                Seq::<FieldView>::empty(),
                Seq::<MorphErrorView>::empty(),
                pos,
            ),
            _ => (
                Seq::<FieldView>::empty(),
                seq![
                    spec_parser_error(
                        "Expected field type or array keyword, but got '"@ + spec_token_kind_string(
                            ts[pos].kind,
                        ) + "'"@,
                        Some(ts[pos]),
                    ),
                ],
                pos,
            ),
        }
    }
}

/// A fields block after the consumed `fields` keyword: the opening brace,
/// the declarations unless the block closes at once, and the block's
/// closing brace, with every error collected.
pub open spec fn spec_parse_fields_block(ts: Seq<TokenView>, pos: int) -> (
    Seq<FieldView>,
    Seq<MorphErrorView>,
    int,
) {
    let (ropen, p1) = spec_expect_kind(ts, pos, TokenKindView::BraceOpen);
    let e1 = spec_errs_of(ropen);
    let (empty_block, p2) = spec_has_token(ts, p1, TokenKindView::BraceClose);
    if !empty_block {
        let (fs, fes, p3) = spec_parse_fields(ts, p2);
        let (rclose, p4) = spec_expect_kind(ts, p3, TokenKindView::BraceClose);
        (
            if fes.len() == 0 {
                fs
            } else {
                Seq::<FieldView>::empty()
            },
            e1 + fes + spec_errs_of(rclose),
            p4,
        )
    } else {
        (Seq::<FieldView>::empty(), e1, p2)
    }
}

/// The header of a packet declaration: the consumed `packet` keyword, the
/// name, the opening brace, the `id` keyword, the equals operator and the
/// id value, yielding the name, the id, whether it is automatic, the
/// errors collected so far, and the position reached.
pub open spec fn spec_parse_packet_header(ts: Seq<TokenView>, pos: int) -> (
    Seq<char>,
    i32,
    bool,
    Seq<MorphErrorView>,
    int,
) {
    let p1 = if pos < ts.len() {
        pos + 1
    } else {
        pos
    };
    let (rname, p2) = spec_parse_packet_qualifier(ts, p1);
    let name = match rname {
        MorphResultView::Success(n) => n,
        MorphResultView::Errors(_) => "not found"@,
    };
    let e1 = spec_errs_of(rname);
    let (ropen, p3) = spec_expect_kind(ts, p2, TokenKindView::BraceOpen);
    let e2 = e1 + spec_errs_of(ropen);
    let (rid, p4) = spec_parse_keyword(ts, p3, KeywordKindView::Identifier);
    let e3 = e2 + spec_errs_of(rid);
    let (rop, p5) = spec_parse_operator(ts, p4, OperatorKind::Equals);
    let e4 = e3 + spec_errs_of(rop);
    let is_auto = spec_has_keyword(ts, p5, KeywordKindView::Auto);
    let id: i32 = if is_auto {
        -1i32
    } else {
        match spec_parse_i32_number(ts, p5).0 {
            MorphResultView::Success(v) => v,
            MorphResultView::Errors(_) => -1i32,
        }
    };
    let e5 = if is_auto {
        e4 + spec_errs_of(spec_parse_keyword(ts, p5, KeywordKindView::Auto).0)
    } else {
        e4 + spec_errs_of(spec_parse_i32_number(ts, p5).0)
    };
    let p6 = if is_auto {
        spec_parse_keyword(ts, p5, KeywordKindView::Auto).1
    } else {
        spec_parse_i32_number(ts, p5).1
    };
    (name, id, is_auto, e5, p6)
}

/// One packet declaration starting at the `packet` keyword: the header
/// clauses, the optional fields block and the closing brace are attempted
/// independently and all their errors are collected; the packet is
/// produced only when none occurred.
pub open spec fn spec_parse_packet(ts: Seq<TokenView>, pos: int) -> (
    MorphResultView<PacketView>,
    int,
) {
    let (name, id, is_auto, e5, p6) = spec_parse_packet_header(ts, pos);
    let has_fields = spec_has_keyword(ts, p6, KeywordKindView::Fields);
    let (fields, e8, p11): (Seq<FieldView>, Seq<MorphErrorView>, int) = if has_fields {
        let (fs, fe, pb) = spec_parse_fields_block(ts, p6 + 1);
        (fs, e5 + fe, pb)
    } else {
        (Seq::<FieldView>::empty(), e5, p6)
    };
    let (rclose2, p12) = spec_expect_kind(ts, p11, TokenKindView::BraceClose);
    let e9 = e8 + spec_errs_of(rclose2);
    if e9.len() == 0 {
        (MorphResultView::Success(PacketView { id: id as int, is_auto, name, fields }), p12)
    } else {
        (MorphResultView::Errors(e9), p12)
    }
}

/// Parsing field declarations never moves backwards or past the end.
pub proof fn lemma_parse_fields_bounds(ts: Seq<TokenView>, pos: int)
    requires
        0 <= pos <= ts.len(),
    ensures
        pos <= spec_parse_fields(ts, pos).2 <= ts.len(),
    decreases ts.len() - pos,
{
    if pos < ts.len() {
        match ts[pos].kind {
            TokenKindView::Keyword(k) => match k {
                KeywordKindView::FieldDefinition(ft) => {
                    let (r, p2) = spec_parse_simple_field(ts, pos + 1, ft);
                    lemma_parse_fields_bounds(ts, p2);
                },
                KeywordKindView::Array => {
                    let (r, p2) = spec_parse_array_field(ts, pos + 1);
                    lemma_parse_fields_bounds(ts, p2);
                },
                _ => {},
            },
            TokenKindView::Qualifier(name) => {
                let (r, p2) = spec_parse_simple_field(ts, pos + 1, FieldTypeView::Nested(name));
                lemma_parse_fields_bounds(ts, p2);
            },
            _ => {},
        }
    }
}

/// Parsing one packet consumes at least the leading token and never moves
/// backwards or past the end.
pub proof fn lemma_parse_packet_bounds(ts: Seq<TokenView>, pos: int)
    requires
        0 <= pos <= ts.len(),
    ensures
        pos <= spec_parse_packet(ts, pos).1 <= ts.len(),
        pos < ts.len() ==> pos < spec_parse_packet(ts, pos).1,
{
    lemma_parse_packet_header_bounds(ts, pos);
    let p6 = spec_parse_packet_header(ts, pos).4;
    let has_fields = spec_has_keyword(ts, p6, KeywordKindView::Fields);
    if has_fields {
        lemma_parse_fields_block_bounds(ts, p6 + 1);
    }
}

/// Parsing a packet header never moves backwards or past the end, and
/// consumes at least the leading token.
pub proof fn lemma_parse_packet_header_bounds(ts: Seq<TokenView>, pos: int)
    requires
        0 <= pos <= ts.len(),
    ensures
        pos <= spec_parse_packet_header(ts, pos).4 <= ts.len(),
        pos < ts.len() ==> pos < spec_parse_packet_header(ts, pos).4,
{
}

/// Parsing a fields block never moves backwards or past the end.
pub proof fn lemma_parse_fields_block_bounds(ts: Seq<TokenView>, pos: int)
    requires
        0 <= pos <= ts.len(),
    ensures
        pos <= spec_parse_fields_block(ts, pos).2 <= ts.len(),
{
    let (ropen, p1) = spec_expect_kind(ts, pos, TokenKindView::BraceOpen);
    let (empty_block, p2) = spec_has_token(ts, p1, TokenKindView::BraceClose);
    if !empty_block {
        lemma_parse_fields_bounds(ts, p2);
    }
}

/// The top level: packet declarations from `pos` to the end of the tokens,
/// each other leading token reported as one error and skipped.
pub open spec fn spec_parse_loop(ts: Seq<TokenView>, pos: int) -> (
    Seq<PacketView>,
    Seq<MorphErrorView>,
)
    decreases ts.len() - pos,
    when 0 <= pos <= ts.len()
    via spec_parse_loop_decreases
{
    if pos >= ts.len() {
        (Seq::<PacketView>::empty(), Seq::<MorphErrorView>::empty())
    } else {
        match ts[pos].kind {
            TokenKindView::Keyword(KeywordKindView::Packet) => {
                let (r, p2) = spec_parse_packet(ts, pos);
                let (ps, es) = spec_parse_loop(ts, p2);
                match r {
                    MorphResultView::Success(p) => (seq![p] + ps, es),
                    MorphResultView::Errors(e1) => (ps, e1 + es),
                }
            },
            TokenKindView::Keyword(k) => {
                let (ps, es) = spec_parse_loop(ts, pos + 1);
                (
                    ps,
                    seq![
                        spec_parser_error(
                            "Expected keyword 'packet', but got keyword '"@
                                + spec_token_kind_string(ts[pos].kind) + "'"@,
                            Some(ts[pos]),
                        ),
                    ] + es,
                )
            },
            _ => {
                let (ps, es) = spec_parse_loop(ts, pos + 1);
                (
                    ps,
                    seq![
                        spec_parser_error(
                            "Expected keyword 'packet', but got '"@ + spec_token_kind_string(
                                ts[pos].kind,
                            ) + "'"@,
                            Some(ts[pos]),
                        ),
                    ] + es,
                )
            },
        }
    }
}

#[via_fn]
proof fn spec_parse_loop_decreases(ts: Seq<TokenView>, pos: int) {
    if 0 <= pos < ts.len() {
        match ts[pos].kind {
            TokenKindView::Keyword(KeywordKindView::Packet) => {
                lemma_parse_packet_bounds(ts, pos);
            },
            _ => {},
        }
    }
}

/// What parsing a whole token sequence yields: the packet list when no
/// syntax error occurred, else every error, in source order.
pub open spec fn spec_parse(ts: Seq<TokenView>) -> MorphResultView<Seq<PacketView>> {
    let (ps, es) = spec_parse_loop(ts, 0);
    if es.len() == 0 {
        MorphResultView::Success(ps)
    } else {
        MorphResultView::Errors(es)
    }
}

/// The model of a unit-valued stage result.
pub open spec fn spec_unit_result(r: &MorphResult<()>) -> MorphResultView<()> {
    match r {
        MorphResult::Success(_) => MorphResultView::Success(()),
        MorphResult::Errors(es) => MorphResultView::Errors(es.deep_view()),
    }
}

/// A parser over the token sequence.
pub trait AstParser {
    /// What this parser yields on a given token sequence.
    spec fn spec_parser_result(&self, ts: Seq<TokenView>) -> MorphResultView<Seq<PacketView>>;

    /// Parses the full token sequence into the packet list, or every
    /// syntax error found.
    fn parse(&self, tokens: &Vec<Token>) -> (r: MorphResult<Vec<Packet>>)
        ensures
            r@ == self.spec_parser_result(tokens.deep_view()),
    ;
}

/// The recursive-descent parser of the schema language.
pub struct SimpleParser;

impl SimpleParser {
    /// Consumes the next token, or reports that the input ended early.
    pub fn expect<'a>(&self, tokens: &'a Vec<Token>, pos: &mut usize) -> (r: Result<
        &'a Token,
        MorphError,
    >)
        ensures
            *old(pos) < tokens@.len() ==> (r matches Ok(t) && t@ == tokens.deep_view()[*old(pos) as int] && *final(pos) == *old(pos) + 1),
            *old(pos) >= tokens@.len() ==> (r matches Err(e) && e@ == spec_eot_error() && *final(pos) == *old(pos)),
    {
        if *pos < tokens.len() {
            let t = &tokens[*pos];
            *pos = *pos + 1;
            proof {
                assert(tokens.deep_view()[*old(pos) as int] == tokens@[*old(pos) as int].deep_view());
            }
            Ok(t)
        } else {
            Err(
                MorphError::Parser(
                    ParserError { message: String::from_str("Unexpected end of tokens"), token: None },
                ),
            )
        }
    }

    /// Consumes one token and demands an exact kind.
    pub fn expect_kind(&self, tokens: &Vec<Token>, pos: &mut usize, expected: TokenKind) -> (r:
        MorphResult<()>)
        ensures
            ({
                let (sr, sp) = spec_expect_kind(tokens.deep_view(), *old(pos) as int, expected@);
                spec_unit_result(&r) == sr && *final(pos) == sp
            }),
    {
        let ghost ts = tokens.deep_view();
        let ghost pos0 = *pos as int;
        match self.expect(tokens, pos) {
            Ok(token) => {
                if token_kind_eq(&token.kind, &expected) {
                    MorphResult::Success(())
                } else {
                    let estr = token_kind_to_string(&expected);
                    let gstr = token_kind_to_string(&token.kind);
                    let message = concat5(
                        "Expected '",
                        estr.as_str(),
                        "', but got '",
                        gstr.as_str(),
                        "'",
                    );
                    let err = MorphError::Parser(
                        ParserError { message, token: Some(token.clone()) },
                    );
                    let errors = vec![err];
                    proof {
                        assert(errors.deep_view() =~= seq![
                            spec_parser_error(
                                "Expected '"@ + spec_token_kind_string(expected@) + "', but got '"@
                                    + spec_token_kind_string(ts[pos0].kind) + "'"@,
                                Some(ts[pos0]),
                            ),
                        ]);
                    }
                    MorphResult::Errors(errors)
                }
            },
            Err(e) => {
                let errors = vec![e];
                proof {
                    assert(errors.deep_view() =~= seq![spec_eot_error()]);
                }
                MorphResult::Errors(errors)
            },
        }
    }

    /// Peeking: whether the next token has exactly the expected kind,
    /// consuming it on a match.
    pub fn has_token(&self, tokens: &Vec<Token>, pos: &mut usize, expected: TokenKind) -> (r: bool)
        ensures
            ({
                let (sb, sp) = spec_has_token(tokens.deep_view(), *old(pos) as int, expected@);
                r == sb && *final(pos) == sp
            }),
    {
        if *pos < tokens.len() {
            if token_kind_eq(&tokens[*pos].kind, &expected) {
                proof {
                    assert(tokens.deep_view()[*pos as int] == tokens@[*pos as int].deep_view());
                }
                *pos = *pos + 1;
                true
            } else {
                proof {
                    assert(tokens.deep_view()[*pos as int] == tokens@[*pos as int].deep_view());
                }
                false
            }
        } else {
            false
        }
    }

    /// Peeking without consuming: whether the next token is the expected
    /// keyword.
    pub fn has_keyword(&self, tokens: &Vec<Token>, pos: usize, expected: &KeywordKind) -> (r: bool)
        ensures
            r == spec_has_keyword(tokens.deep_view(), pos as int, expected@),
    {
        if pos < tokens.len() {
            proof {
                assert(tokens.deep_view()[pos as int] == tokens@[pos as int].deep_view());
            }
            match &tokens[pos].kind {
                TokenKind::Keyword(k) => keyword_kind_eq(k, expected),
                _ => false,
            }
        } else {
            false
        }
    }

    /// Consumes one token that must be a qualifier, yielding the packet
    /// name.
    pub fn parse_packet_qualifier(&self, tokens: &Vec<Token>, pos: &mut usize) -> (r: MorphResult<
        String,
    >)
        ensures
            ({
                let (sr, sp) = spec_parse_packet_qualifier(tokens.deep_view(), *old(pos) as int);
                r@ == sr && *final(pos) == sp
            }),
    {
        let ghost ts = tokens.deep_view();
        let ghost pos0 = *pos as int;
        match self.expect(tokens, pos) {
            Ok(token) => {
                match &token.kind {
                    TokenKind::Qualifier(name) => MorphResult::Success(name.clone()),
                    _ => {
                        let gstr = token_kind_to_string(&token.kind);
                        let message = concat3(
                            "Expected packet qualifier, but got '",
                            gstr.as_str(),
                            "'",
                        );
                        let err = MorphError::Parser(
                            ParserError { message, token: Some(token.clone()) },
                        );
                        let errors = vec![err];
                        proof {
                            assert(errors.deep_view() =~= seq![
                                spec_parser_error(
                                    "Expected packet qualifier, but got '"@
                                        + spec_token_kind_string(ts[pos0].kind) + "'"@,
                                    Some(ts[pos0]),
                                ),
                            ]);
                        }
                        MorphResult::Errors(errors)
                    },
                }
            },
            Err(e) => {
                let errors = vec![e];
                proof {
                    assert(errors.deep_view() =~= seq![spec_eot_error()]);
                }
                MorphResult::Errors(errors)
            },
        }
    }

    /// Consumes the opening brace of a block.
    pub fn parse_brace_open(&self, tokens: &Vec<Token>, pos: &mut usize) -> (r: MorphResult<()>)
        ensures
            ({
                let (sr, sp) = spec_expect_kind(
                    tokens.deep_view(),
                    *old(pos) as int,
                    TokenKindView::BraceOpen,
                );
                spec_unit_result(&r) == sr && *final(pos) == sp
            }),
    {
        self.expect_kind(tokens, pos, TokenKind::BraceOpen)
    }

    /// Consumes the closing brace of a block.
    pub fn parse_brace_close(&self, tokens: &Vec<Token>, pos: &mut usize) -> (r: MorphResult<()>)
        ensures
            ({
                let (sr, sp) = spec_expect_kind(
                    tokens.deep_view(),
                    *old(pos) as int,
                    TokenKindView::BraceClose,
                );
                spec_unit_result(&r) == sr && *final(pos) == sp
            }),
    {
        self.expect_kind(tokens, pos, TokenKind::BraceClose)
    }

    /// Consumes one token that must be a given keyword.
    pub fn parse_keyword(&self, tokens: &Vec<Token>, pos: &mut usize, expected: KeywordKind) -> (r:
        MorphResult<()>)
        ensures
            ({
                let (sr, sp) = spec_parse_keyword(tokens.deep_view(), *old(pos) as int, expected@);
                spec_unit_result(&r) == sr && *final(pos) == sp
            }),
    {
        let ghost ts = tokens.deep_view();
        let ghost pos0 = *pos as int;
        match self.expect(tokens, pos) {
            Ok(token) => {
                match &token.kind {
                    TokenKind::Keyword(k) => {
                        if keyword_kind_eq(k, &expected) {
                            MorphResult::Success(())
                        } else {
                            let estr = keyword_to_string(&expected);
                            let gstr = keyword_to_string(k);
                            let mut message = String::from_str("Expected keyword '");
                            message.append(estr.as_str());
                            message.append("', but got another keyword '");
                            message.append(gstr.as_str());
                            proof {
                                assert(message@ =~= "Expected keyword '"@ + spec_keyword_string(
                                    expected@,
                                ) + "', but got another keyword '"@ + spec_keyword_string(
                                    ts[pos0].kind->Keyword_0,
                                ));
                            }
                            let err = MorphError::Parser(
                                ParserError { message, token: Some(token.clone()) },
                            );
                            let errors = vec![err];
                            proof {
                                assert(errors.deep_view() =~= seq![
                                    spec_parser_error(
                                        "Expected keyword '"@ + spec_keyword_string(expected@)
                                            + "', but got another keyword '"@ + spec_keyword_string(
                                            ts[pos0].kind->Keyword_0,
                                        ),
                                        Some(ts[pos0]),
                                    ),
                                ]);
                            }
                            MorphResult::Errors(errors)
                        }
                    },
                    _ => {
                        let estr = keyword_to_string(&expected);
                        let gstr = token_kind_to_string(&token.kind);
                        let mut message = String::from_str("Expected keyword '");
                        message.append(estr.as_str());
                        message.append("', but got '");
                        message.append(gstr.as_str());
                        proof {
                            assert(message@ =~= "Expected keyword '"@ + spec_keyword_string(
                                expected@,
                            ) + "', but got '"@ + spec_token_kind_string(ts[pos0].kind));
                        }
                        let err = MorphError::Parser(
                            ParserError { message, token: Some(token.clone()) },
                        );
                        let errors = vec![err];
                        proof {
                            assert(errors.deep_view() =~= seq![
                                spec_parser_error(
                                    "Expected keyword '"@ + spec_keyword_string(expected@)
                                        + "', but got '"@ + spec_token_kind_string(ts[pos0].kind),
                                    Some(ts[pos0]),
                                ),
                            ]);
                        }
                        MorphResult::Errors(errors)
                    },
                }
            },
            Err(e) => {
                let errors = vec![e];
                proof {
                    assert(errors.deep_view() =~= seq![spec_eot_error()]);
                }
                MorphResult::Errors(errors)
            },
        }
    }

    /// Consumes the `id` keyword of a packet body.
    pub fn parse_packet_id_keyword(&self, tokens: &Vec<Token>, pos: &mut usize) -> (r: MorphResult<
        (),
    >)
        ensures
            ({
                let (sr, sp) = spec_parse_keyword(
                    tokens.deep_view(),
                    *old(pos) as int,
                    KeywordKindView::Identifier,
                );
                spec_unit_result(&r) == sr && *final(pos) == sp
            }),
    {
        self.parse_keyword(tokens, pos, KeywordKind::Identifier)
    }

    /// Consumes the `auto` keyword of an automatic id.
    pub fn parse_auto_keyword(&self, tokens: &Vec<Token>, pos: &mut usize) -> (r: MorphResult<()>)
        ensures
            ({
                let (sr, sp) = spec_parse_keyword(
                    tokens.deep_view(),
                    *old(pos) as int,
                    KeywordKindView::Auto,
                );
                spec_unit_result(&r) == sr && *final(pos) == sp
            }),
    {
        self.parse_keyword(tokens, pos, KeywordKind::Auto)
    }

    /// Consumes one token that must be a given operator.
    pub fn parse_operator(&self, tokens: &Vec<Token>, pos: &mut usize, expected: OperatorKind) -> (r:
        MorphResult<()>)
        ensures
            ({
                let (sr, sp) = spec_parse_operator(tokens.deep_view(), *old(pos) as int, expected);
                spec_unit_result(&r) == sr && *final(pos) == sp
            }),
    {
        let ghost ts = tokens.deep_view();
        let ghost pos0 = *pos as int;
        match self.expect(tokens, pos) {
            Ok(token) => {
                match &token.kind {
                    TokenKind::Operator(k) => {
                        if *k == expected {
                            MorphResult::Success(())
                        } else {
                            let message = concat5(
                                "Expected operator '",
                                "=",
                                "', but got operator '",
                                "=",
                                "'",
                            );
                            let err = MorphError::Parser(
                                ParserError { message, token: Some(token.clone()) },
                            );
                            let errors = vec![err];
                            proof {
                                assert(errors.deep_view() =~= seq![
                                    spec_parser_error(
                                        "Expected operator '"@ + "="@ + "', but got operator '"@
                                            + "="@ + "'"@,
                                        Some(ts[pos0]),
                                    ),
                                ]);
                            }
                            MorphResult::Errors(errors)
                        }
                    },
                    _ => {
                        let gstr = token_kind_to_string(&token.kind);
                        let message = concat5(
                            "Expected operator '",
                            "=",
                            "', but got '",
                            gstr.as_str(),
                            "'",
                        );
                        let err = MorphError::Parser(
                            ParserError { message, token: Some(token.clone()) },
                        );
                        let errors = vec![err];
                        proof {
                            assert(errors.deep_view() =~= seq![
                                spec_parser_error(
                                    "Expected operator '"@ + "="@ + "', but got '"@
                                        + spec_token_kind_string(ts[pos0].kind) + "'"@,
                                    Some(ts[pos0]),
                                ),
                            ]);
                        }
                        MorphResult::Errors(errors)
                    },
                }
            },
            Err(e) => {
                let errors = vec![e];
                proof {
                    assert(errors.deep_view() =~= seq![spec_eot_error()]);
                }
                MorphResult::Errors(errors)
            },
        }
    }

    /// Consumes one token that must be a number literal, yielding its
    /// value.
    pub fn parse_i32_number(&self, tokens: &Vec<Token>, pos: &mut usize) -> (r: MorphResult<i32>)
        ensures
            ({
                let (sr, sp) = spec_parse_i32_number(tokens.deep_view(), *old(pos) as int);
                r@ == sr && *final(pos) == sp
            }),
    {
        let ghost ts = tokens.deep_view();
        let ghost pos0 = *pos as int;
        match self.expect(tokens, pos) {
            Ok(token) => {
                match &token.kind {
                    TokenKind::Number(num) => MorphResult::Success(*num),
                    _ => {
                        let gstr = token_kind_to_string(&token.kind);
                        let message = concat3("Expected i32 number, but got '", gstr.as_str(), "'");
                        let err = MorphError::Parser(
                            ParserError { message, token: Some(token.clone()) },
                        );
                        let errors = vec![err];
                        proof {
                            assert(errors.deep_view() =~= seq![
                                spec_parser_error(
                                    "Expected i32 number, but got '"@ + spec_token_kind_string(
                                        ts[pos0].kind,
                                    ) + "'"@,
                                    Some(ts[pos0]),
                                ),
                            ]);
                        }
                        MorphResult::Errors(errors)
                    },
                }
            },
            Err(e) => {
                let errors = vec![e];
                proof {
                    assert(errors.deep_view() =~= seq![spec_eot_error()]);
                }
                MorphResult::Errors(errors)
            },
        }
    }

    /// Consumes one token that must be a qualifier naming the field,
    /// yielding the field of the given type.
    pub fn parse_simple_field(
        &self,
        tokens: &Vec<Token>,
        pos: &mut usize,
        field_type: &FieldType,
    ) -> (r: MorphResult<Field>)
        ensures
            ({
                let (sr, sp) = spec_parse_simple_field(
                    tokens.deep_view(),
                    *old(pos) as int,
                    field_type@,
                );
                r@ == sr && *final(pos) == sp
            }),
    {
        let ghost ts = tokens.deep_view();
        let ghost pos0 = *pos as int;
        match self.expect(tokens, pos) {
            Ok(token) => {
                match &token.kind {
                    TokenKind::Qualifier(name) => {
                        let field = Field { typ: field_type.clone(), name: name.clone() };
                        MorphResult::Success(field)
                    },
                    _ => {
                        let gstr = token_kind_to_string(&token.kind);
                        let message = concat3("Expected field name, but got '", gstr.as_str(), "'");
                        let err = MorphError::Parser(
                            ParserError { message, token: Some(token.clone()) },
                        );
                        let errors = vec![err];
                        proof {
                            assert(errors.deep_view() =~= seq![
                                spec_parser_error(
                                    "Expected field name, but got '"@ + spec_token_kind_string(
                                        ts[pos0].kind,
                                    ) + "'"@,
                                    Some(ts[pos0]),
                                ),
                            ]);
                        }
                        MorphResult::Errors(errors)
                    },
                }
            },
            Err(e) => {
                let errors = vec![e];
                proof {
                    assert(errors.deep_view() =~= seq![spec_eot_error()]);
                }
                MorphResult::Errors(errors)
            },
        }
    }

    /// An array field after the `array` keyword: one element type, which
    /// may not itself be an array, then the field name.
    pub fn parse_array_field(&self, tokens: &Vec<Token>, pos: &mut usize) -> (r: MorphResult<Field>)
        ensures
            ({
                let (sr, sp) = spec_parse_array_field(tokens.deep_view(), *old(pos) as int);
                r@ == sr && *final(pos) == sp
            }),
    {
        let ghost ts = tokens.deep_view();
        let ghost pos0 = *pos as int;
        match self.expect(tokens, pos) {
            Ok(token) => {
                match &token.kind {
                    TokenKind::Keyword(k) => {
                        match k {
                            KeywordKind::FieldDefinition(element) => {
                                let typ = FieldType::Array(Box::new(element.clone()));
                                proof {
                                    assert(typ@ == FieldTypeView::Array(Box::new(element@)));
                                }
                                self.parse_simple_field(tokens, pos, &typ)
                            },
                            KeywordKind::Array => {
                                let message = String::from_str("Nested arrays are not allowed");
                                let err = MorphError::Parser(
                                    ParserError { message, token: Some(token.clone()) },
                                );
                                let errors = vec![err];
                                proof {
                                    assert(errors.deep_view() =~= seq![
                                        spec_parser_error(
                                            "Nested arrays are not allowed"@,
                                            Some(ts[pos0]),
                                        ),
                                    ]);
                                }
                                MorphResult::Errors(errors)
                            },
                            _ => {
                                let gstr = token_kind_to_string(&token.kind);
                                let message = concat3(
                                    "Expected field type or array keyword field type, but got '",
                                    gstr.as_str(),
                                    "'",
                                );
                                let err = MorphError::Parser(
                                    ParserError { message, token: Some(token.clone()) },
                                );
                                let errors = vec![err];
                                proof {
                                    assert(errors.deep_view() =~= seq![
                                        spec_parser_error(
                                            "Expected field type or array keyword field type, but got '"@
                                                + spec_token_kind_string(ts[pos0].kind) + "'"@,
                                            Some(ts[pos0]),
                                        ),
                                    ]);
                                }
                                MorphResult::Errors(errors)
                            },
                        }
                    },
                    TokenKind::Qualifier(packet_name) => {
                        let element = FieldType::Nested(packet_name.clone());
                        proof {
                            assert(element@ == FieldTypeView::Nested(packet_name@));
                        }
                        let typ = FieldType::Array(Box::new(element));
                        proof {
                            assert(typ@ == FieldTypeView::Array(
                                Box::new(FieldTypeView::Nested(packet_name@)),
                            ));
                        }
                        self.parse_simple_field(tokens, pos, &typ)
                    },
                    _ => {
                        let gstr = token_kind_to_string(&token.kind);
                        let message = concat3(
                            "Expected array field type, but got '",
                            gstr.as_str(),
                            "'",
                        );
                        let err = MorphError::Parser(
                            ParserError { message, token: Some(token.clone()) },
                        );
                        let errors = vec![err];
                        proof {
                            assert(errors.deep_view() =~= seq![
                                spec_parser_error(
                                    "Expected array field type, but got '"@
                                        + spec_token_kind_string(ts[pos0].kind) + "'"@,
                                    Some(ts[pos0]),
                                ),
                            ]);
                        }
                        MorphResult::Errors(errors)
                    },
                }
            },
            Err(e) => {
                let errors = vec![e];
                proof {
                    assert(errors.deep_view() =~= seq![spec_eot_error()]);
                }
                MorphResult::Errors(errors)
            },
        }
    }

    /// Parses field declarations up to the closing brace, accumulating one
    /// error per malformed declaration and resynchronizing at the next
    /// plausible field start; the fields are returned only when no error
    /// occurred.
    #[verifier::rlimit(100)]
    pub fn parse_fields(&self, tokens: &Vec<Token>, pos: &mut usize) -> (r: MorphResult<Vec<Field>>)
        requires
            *old(pos) <= tokens@.len(),
        ensures
            ({
                let (fs, es, p) = spec_parse_fields(tokens.deep_view(), *old(pos) as int);
                *final(pos) == p && r@ == (if es.len() == 0 {
                    MorphResultView::<Seq<FieldView>>::Success(fs)
                } else {
                    MorphResultView::<Seq<FieldView>>::Errors(es)
                })
            }),
    {
        let ghost ts = tokens.deep_view();
        let ghost pos0 = *pos as int;
        let mut fields: Vec<Field> = Vec::new();
        let mut all_errors: Vec<MorphError> = Vec::new();
        let mut p: usize = *pos;
        proof {
            assert(fields.deep_view() + spec_parse_fields(ts, pos0).0 =~= spec_parse_fields(
                ts,
                pos0,
            ).0);
            assert(all_errors.deep_view() + spec_parse_fields(ts, pos0).1 =~= spec_parse_fields(
                ts,
                pos0,
            ).1);
        }
        loop
            invariant_except_break
                spec_parse_fields(ts, pos0).0 == fields.deep_view() + spec_parse_fields(
                    ts,
                    p as int,
                ).0,
                spec_parse_fields(ts, pos0).1 == all_errors.deep_view() + spec_parse_fields(
                    ts,
                    p as int,
                ).1,
                spec_parse_fields(ts, pos0).2 == spec_parse_fields(ts, p as int).2,
            invariant
                p as int <= ts.len(),
                0 <= pos0 <= ts.len(),
                ts == tokens.deep_view(),
                ts.len() == tokens@.len(),
            ensures
                fields.deep_view() == spec_parse_fields(ts, pos0).0,
                all_errors.deep_view() == spec_parse_fields(ts, pos0).1,
                p as int == spec_parse_fields(ts, pos0).2,
            decreases ts.len() - p,
        {
            let ghost pcur = p as int;
            let ghost f_acc = fields.deep_view();
            let ghost e_acc = all_errors.deep_view();
            if p >= tokens.len() {
                proof {
                    assert(f_acc + spec_parse_fields(ts, pcur).0 =~= f_acc);
                    assert(e_acc + spec_parse_fields(ts, pcur).1 =~= e_acc);
                }
                break;
            }
            proof {
                assert(ts[pcur] == tokens@[pcur].deep_view());
            }
            match &tokens[p].kind {
                TokenKind::Keyword(keyword_kind) => {
                    match keyword_kind {
                        KeywordKind::FieldDefinition(field_type) => {
                            let ft = field_type.clone();
                            p = p + 1;
                            match self.parse_simple_field(tokens, &mut p, &ft) {
                                MorphResult::Success(field) => {
                                    proof {
                                        assert(f_acc + (seq![field@] + spec_parse_fields(
                                            ts,
                                            p as int,
                                        ).0) =~= f_acc.push(field@) + spec_parse_fields(
                                            ts,
                                            p as int,
                                        ).0);
                                    }
                                    fields.push(field);
                                    proof {
                                        assert(fields.deep_view() =~= f_acc.push(field@));
                                    }
                                },
                                MorphResult::Errors(mut es) => {
                                    let ghost es0 = es.deep_view();
                                    all_errors.append(&mut es);
                                    proof {
                                        assert(all_errors.deep_view() =~= e_acc + es0);
                                        assert(e_acc + (es0 + spec_parse_fields(ts, p as int).1)
                                            =~= (e_acc + es0) + spec_parse_fields(ts, p as int).1);
                                    }
                                },
                            }
                        },
                        KeywordKind::Array => {
                            p = p + 1;
                            match self.parse_array_field(tokens, &mut p) {
                                MorphResult::Success(field) => {
                                    proof {
                                        assert(f_acc + (seq![field@] + spec_parse_fields(
                                            ts,
                                            p as int,
                                        ).0) =~= f_acc.push(field@) + spec_parse_fields(
                                            ts,
                                            p as int,
                                        ).0);
                                    }
                                    fields.push(field);
                                    proof {
                                        assert(fields.deep_view() =~= f_acc.push(field@));
                                    }
                                },
                                MorphResult::Errors(mut es) => {
                                    let ghost es0 = es.deep_view();
                                    all_errors.append(&mut es);
                                    proof {
                                        assert(all_errors.deep_view() =~= e_acc + es0);
                                        assert(e_acc + (es0 + spec_parse_fields(ts, p as int).1)
                                            =~= (e_acc + es0) + spec_parse_fields(ts, p as int).1);
                                    }
                                },
                            }
                        },
                        _ => {
                            let gstr = token_kind_to_string(&tokens[p].kind);
                            let message = concat3(
                                "Expected field type or array keyword, but got '",
                                gstr.as_str(),
                                "'",
                            );
                            let err = MorphError::Parser(
                                ParserError { message, token: Some(tokens[p].clone()) },
                            );
                            proof {
                                assert(err@ == spec_parser_error(
                                    "Expected field type or array keyword, but got '"@
                                        + spec_token_kind_string(ts[pcur].kind) + "'"@,
                                    Some(ts[pcur]),
                                ));
                            }
                            all_errors.push(err);
                            proof {
                                assert(all_errors.deep_view() =~= e_acc.push(err@));
                                assert(e_acc + spec_parse_fields(ts, pcur).1 =~= e_acc.push(err@));
                                assert(f_acc + spec_parse_fields(ts, pcur).0 =~= f_acc);
                            }
                            break;
                        },
                    }
                },
                TokenKind::Qualifier(packet_name) => {
                    let nested = FieldType::Nested(packet_name.clone());
                    proof {
                        assert(nested@ == FieldTypeView::Nested(packet_name@));
                    }
                    p = p + 1;
                    match self.parse_simple_field(tokens, &mut p, &nested) {
                        MorphResult::Success(field) => {
                            proof {
                                assert(f_acc + (seq![field@] + spec_parse_fields(ts, p as int).0)
                                    =~= f_acc.push(field@) + spec_parse_fields(ts, p as int).0);
                            }
                            fields.push(field);
                            proof {
                                assert(fields.deep_view() =~= f_acc.push(field@));
                            }
                        },
                        MorphResult::Errors(mut es) => {
                            let ghost es0 = es.deep_view();
                            all_errors.append(&mut es);
                            proof {
                                assert(all_errors.deep_view() =~= e_acc + es0);
                                assert(e_acc + (es0 + spec_parse_fields(ts, p as int).1) =~= (e_acc
                                    + es0) + spec_parse_fields(ts, p as int).1);
                            }
                        },
                    }
                },
                TokenKind::BraceClose => {
                    proof {
                        assert(f_acc + spec_parse_fields(ts, pcur).0 =~= f_acc);
                        assert(e_acc + spec_parse_fields(ts, pcur).1 =~= e_acc);
                    }
                    break;
                },
                _ => {
                    let gstr = token_kind_to_string(&tokens[p].kind);
                    let message = concat3(
                        "Expected field type or array keyword, but got '",
                        gstr.as_str(),
                        "'",
                    );
                    let err = MorphError::Parser(
                        ParserError { message, token: Some(tokens[p].clone()) },
                    );
                    proof {
                        assert(err@ == spec_parser_error(
                            "Expected field type or array keyword, but got '"@
                                + spec_token_kind_string(ts[pcur].kind) + "'"@,
                            Some(ts[pcur]),
                        ));
                    }
                    all_errors.push(err);
                    proof {
                        assert(all_errors.deep_view() =~= e_acc.push(err@));
                        assert(e_acc + spec_parse_fields(ts, pcur).1 =~= e_acc.push(err@));
                        assert(f_acc + spec_parse_fields(ts, pcur).0 =~= f_acc);
                    }
                    break;
                },
            }
        }
        *pos = p;
        if all_errors.is_empty() {
            MorphResult::Success(fields)
        } else {
            MorphResult::Errors(all_errors)
        }
    }

    /// Parses a fields block after the consumed `fields` keyword: the
    /// opening brace, the declarations unless the block closes at once, and
    /// the block's closing brace, collecting every error.
    #[verifier::rlimit(100)]
    pub fn parse_fields_block(&self, tokens: &Vec<Token>, pos: &mut usize) -> (r: (
        Vec<Field>,
        Vec<MorphError>,
    ))
        requires
            *old(pos) <= tokens@.len(),
        ensures
            ({
                let (fs, es, p) = spec_parse_fields_block(tokens.deep_view(), *old(pos) as int);
                r.0.deep_view() == fs && r.1.deep_view() == es && *final(pos) == p
            }),
    {
        let ghost ts = tokens.deep_view();
        let ghost pos0 = *pos as int;
        let mut fields: Vec<Field> = Vec::new();
        let mut all_errors: Vec<MorphError> = Vec::new();
        match self.parse_brace_open(tokens, pos) {
            MorphResult::Errors(mut es) => {
                all_errors.append(&mut es);
            },
            _ => {},
        }
        proof {
            assert(all_errors.deep_view() =~= spec_errs_of(
                spec_expect_kind(ts, pos0, TokenKindView::BraceOpen).0,
            ));
        }
        let ghost p1 = *pos as int;
        let ghost e1 = all_errors.deep_view();
        if !self.has_token(tokens, pos, TokenKind::BraceClose) {
            let ghost p2 = *pos as int;
            match self.parse_fields(tokens, pos) {
                MorphResult::Success(mut fs) => {
                    let ghost fs0 = fs.deep_view();
                    fields.append(&mut fs);
                    proof {
                        assert(fields.deep_view() =~= fs0);
                    }
                },
                MorphResult::Errors(mut es) => {
                    all_errors.append(&mut es);
                },
            }
            proof {
                assert(fields.deep_view() =~= (if spec_parse_fields(ts, p2).1.len() == 0 {
                    spec_parse_fields(ts, p2).0
                } else {
                    Seq::<FieldView>::empty()
                }));
                assert(all_errors.deep_view() =~= e1 + spec_parse_fields(ts, p2).1);
            }
            let ghost p3 = *pos as int;
            let ghost e2 = all_errors.deep_view();
            match self.parse_brace_close(tokens, pos) {
                MorphResult::Errors(mut es) => {
                    all_errors.append(&mut es);
                },
                _ => {},
            }
            proof {
                assert(all_errors.deep_view() =~= e2 + spec_errs_of(
                    spec_expect_kind(ts, p3, TokenKindView::BraceClose).0,
                ));
                assert(e1 + spec_parse_fields(ts, p2).1 + spec_errs_of(
                    spec_expect_kind(ts, p3, TokenKindView::BraceClose).0,
                ) =~= all_errors.deep_view());
            }
        }
        (fields, all_errors)
    }

    /// Parses the header of a packet declaration: the consumed `packet`
    /// keyword, the name, the opening brace, the `id` keyword, the equals
    /// operator and the id value, collecting every error on the way.
    #[verifier::rlimit(100)]
    pub fn parse_packet_header(&self, tokens: &Vec<Token>, pos: &mut usize) -> (r: (
        String,
        i32,
        bool,
        Vec<MorphError>,
    ))
        requires
            *old(pos) <= tokens@.len(),
        ensures
            ({
                let (name, id, is_auto, es, p) = spec_parse_packet_header(
                    tokens.deep_view(),
                    *old(pos) as int,
                );
                r.0@ == name && r.1 == id && r.2 == is_auto && r.3.deep_view() == es && *final(pos)
                    == p
            }),
    {
        let ghost ts = tokens.deep_view();
        let ghost pos0 = *pos as int;
        let mut all_errors: Vec<MorphError> = Vec::new();

        if *pos < tokens.len() {
            *pos = *pos + 1;
        }
        let ghost p1 = *pos as int;

        let name: String;
        match self.parse_packet_qualifier(tokens, pos) {
            MorphResult::Success(value) => {
                name = value;
            },
            MorphResult::Errors(mut es) => {
                name = String::from_str("not found");
                all_errors.append(&mut es);
            },
        }
        proof {
            assert(all_errors.deep_view() =~= spec_errs_of(
                spec_parse_packet_qualifier(ts, p1).0,
            ));
        }

        let ghost p2 = *pos as int;
        let ghost e1 = all_errors.deep_view();
        match self.parse_brace_open(tokens, pos) {
            MorphResult::Errors(mut es) => {
                all_errors.append(&mut es);
            },
            _ => {},
        }
        proof {
            assert(all_errors.deep_view() =~= e1 + spec_errs_of(
                spec_expect_kind(ts, p2, TokenKindView::BraceOpen).0,
            ));
        }

        let ghost p3 = *pos as int;
        let ghost e2 = all_errors.deep_view();
        match self.parse_packet_id_keyword(tokens, pos) {
            MorphResult::Errors(mut es) => {
                all_errors.append(&mut es);
            },
            _ => {},
        }
        proof {
            assert(all_errors.deep_view() =~= e2 + spec_errs_of(
                spec_parse_keyword(ts, p3, KeywordKindView::Identifier).0,
            ));
        }

        let ghost p4 = *pos as int;
        let ghost e3 = all_errors.deep_view();
        match self.parse_operator(tokens, pos, OperatorKind::Equals) {
            MorphResult::Errors(mut es) => {
                all_errors.append(&mut es);
            },
            _ => {},
        }
        proof {
            assert(all_errors.deep_view() =~= e3 + spec_errs_of(
                spec_parse_operator(ts, p4, OperatorKind::Equals).0,
            ));
        }

        let ghost p5 = *pos as int;
        let ghost e4 = all_errors.deep_view();
        let id: i32;
        let is_auto: bool;
        if self.has_keyword(tokens, *pos, &KeywordKind::Auto) {
            id = -1;
            is_auto = true;
            match self.parse_auto_keyword(tokens, pos) {
                MorphResult::Errors(mut es) => {
                    all_errors.append(&mut es);
                },
                _ => {},
            }
            proof {
                assert(all_errors.deep_view() =~= e4 + spec_errs_of(
                    spec_parse_keyword(ts, p5, KeywordKindView::Auto).0,
                ));
            }
        } else {
            is_auto = false;
            match self.parse_i32_number(tokens, pos) {
                MorphResult::Success(num) => {
                    id = num;
                },
                MorphResult::Errors(mut es) => {
                    id = -1;
                    all_errors.append(&mut es);
                },
            }
            proof {
                assert(all_errors.deep_view() =~= e4 + spec_errs_of(
                    spec_parse_i32_number(ts, p5).0,
                ));
            }
        }
        (name, id, is_auto, all_errors)
    }

    /// Parses one packet declaration starting at the `packet` keyword.  All
    /// first-level clauses are attempted independently and every error they
    /// report is collected; the packet is produced only when none occurred.
    #[verifier::rlimit(100)]
    #[verifier::spinoff_prover]
    pub fn parse_packet(&self, tokens: &Vec<Token>, pos: &mut usize) -> (r: MorphResult<Packet>)
        requires
            *old(pos) <= tokens@.len(),
        ensures
            ({
                let (sr, sp) = spec_parse_packet(tokens.deep_view(), *old(pos) as int);
                r@ == sr && *final(pos) == sp
            }),
    {
        let ghost ts = tokens.deep_view();
        let ghost pos0 = *pos as int;
        let (name, id, is_auto, mut all_errors) = self.parse_packet_header(tokens, pos);

        let ghost p6 = *pos as int;
        let ghost e5 = all_errors.deep_view();
        let mut fields: Vec<Field> = Vec::new();
        if self.has_keyword(tokens, *pos, &KeywordKind::Fields) {
            let n = tokens.len();
            proof {
                assert(*pos < n);
            }
            *pos = *pos + 1;
            let ghost p7 = *pos as int;
            let (mut fs, mut es) = self.parse_fields_block(tokens, pos);
            let ghost fs0 = fs.deep_view();
            let ghost es0 = es.deep_view();
            fields.append(&mut fs);
            all_errors.append(&mut es);
            proof {
                assert(fields.deep_view() =~= fs0);
                assert(all_errors.deep_view() =~= e5 + es0);
            }
        }

        let ghost p11 = *pos as int;
        let ghost e8 = all_errors.deep_view();
        proof {
            let (name_s, id_s, is_auto_s, e5_s, p6_s) = spec_parse_packet_header(ts, pos0);
            assert(p6 == p6_s);
            assert(e5 == e5_s);
            if spec_has_keyword(ts, p6_s, KeywordKindView::Fields) {
                let (fs_s, fe_s, pb_s) = spec_parse_fields_block(ts, p6_s + 1);
                assert(fields.deep_view() == fs_s);
                assert(p11 == pb_s);
                assert(e8 == e5_s + fe_s);
            } else {
                assert(fields.deep_view() =~= Seq::<FieldView>::empty());
                assert(p11 == p6_s);
                assert(e8 == e5_s);
            }
        }
        match self.parse_brace_close(tokens, pos) {
            MorphResult::Errors(mut es) => {
                all_errors.append(&mut es);
            },
            _ => {},
        }
        proof {
            assert(all_errors.deep_view() =~= e8 + spec_errs_of(
                spec_expect_kind(ts, p11, TokenKindView::BraceClose).0,
            ));
        }

        if all_errors.is_empty() {
            MorphResult::Success(Packet { id, is_auto, name, fields })
        } else {
            MorphResult::Errors(all_errors)
        }
    }
}

impl AstParser for SimpleParser {
    open spec fn spec_parser_result(&self, ts: Seq<TokenView>) -> MorphResultView<Seq<PacketView>> {
        spec_parse(ts)
    }

    #[verifier::rlimit(100)]
    fn parse(&self, tokens: &Vec<Token>) -> (r: MorphResult<Vec<Packet>>) {
        let ghost ts = tokens.deep_view();
        let mut packets: Vec<Packet> = Vec::new();
        let mut all_errors: Vec<MorphError> = Vec::new();
        let mut p: usize = 0;
        proof {
            assert(packets.deep_view() + spec_parse_loop(ts, 0).0 =~= spec_parse_loop(ts, 0).0);
            assert(all_errors.deep_view() + spec_parse_loop(ts, 0).1 =~= spec_parse_loop(ts, 0).1);
        }
        loop
            invariant_except_break
                spec_parse_loop(ts, 0).0 == packets.deep_view() + spec_parse_loop(ts, p as int).0,
                spec_parse_loop(ts, 0).1 == all_errors.deep_view() + spec_parse_loop(
                    ts,
                    p as int,
                ).1,
            invariant
                p as int <= ts.len(),
                ts == tokens.deep_view(),
                ts.len() == tokens@.len(),
            ensures
                packets.deep_view() == spec_parse_loop(ts, 0).0,
                all_errors.deep_view() == spec_parse_loop(ts, 0).1,
            decreases ts.len() - p,
        {
            let ghost pcur = p as int;
            let ghost pk_acc = packets.deep_view();
            let ghost e_acc = all_errors.deep_view();
            if p >= tokens.len() {
                proof {
                    assert(pk_acc + spec_parse_loop(ts, pcur).0 =~= pk_acc);
                    assert(e_acc + spec_parse_loop(ts, pcur).1 =~= e_acc);
                }
                break;
            }
            proof {
                assert(ts[pcur] == tokens@[pcur].deep_view());
            }
            match &tokens[p].kind {
                TokenKind::Keyword(KeywordKind::Packet) => {
                    proof {
                        lemma_parse_packet_bounds(ts, pcur);
                    }
                    match self.parse_packet(tokens, &mut p) {
                        MorphResult::Success(packet) => {
                            proof {
                                assert(pk_acc + (seq![packet@] + spec_parse_loop(ts, p as int).0)
                                    =~= pk_acc.push(packet@) + spec_parse_loop(ts, p as int).0);
                            }
                            packets.push(packet);
                            proof {
                                assert(packets.deep_view() =~= pk_acc.push(packet@));
                            }
                        },
                        MorphResult::Errors(mut es) => {
                            let ghost es0 = es.deep_view();
                            all_errors.append(&mut es);
                            proof {
                                assert(all_errors.deep_view() =~= e_acc + es0);
                                assert(e_acc + (es0 + spec_parse_loop(ts, p as int).1) =~= (e_acc
                                    + es0) + spec_parse_loop(ts, p as int).1);
                            }
                        },
                    }
                },
                TokenKind::Keyword(keyword_kind) => {
                    let gstr = token_kind_to_string(&tokens[p].kind);
                    let message = concat3(
                        "Expected keyword 'packet', but got keyword '",
                        gstr.as_str(),
                        "'",
                    );
                    let err = MorphError::Parser(
                        ParserError { message, token: Some(tokens[p].clone()) },
                    );
                    proof {
                        assert(err@ == spec_parser_error(
                            "Expected keyword 'packet', but got keyword '"@
                                + spec_token_kind_string(ts[pcur].kind) + "'"@,
                            Some(ts[pcur]),
                        ));
                    }
                    all_errors.push(err);
                    p = p + 1;
                    proof {
                        assert(all_errors.deep_view() =~= e_acc.push(err@));
                        assert(e_acc + (seq![err@] + spec_parse_loop(ts, p as int).1) =~=
                            e_acc.push(err@) + spec_parse_loop(ts, p as int).1);
                    }
                },
                _ => {
                    let gstr = token_kind_to_string(&tokens[p].kind);
                    let message = concat3(
                        "Expected keyword 'packet', but got '",
                        gstr.as_str(),
                        "'",
                    );
                    let err = MorphError::Parser(
                        ParserError { message, token: Some(tokens[p].clone()) },
                    );
                    proof {
                        assert(err@ == spec_parser_error(
                            "Expected keyword 'packet', but got '"@ + spec_token_kind_string(
                                ts[pcur].kind,
                            ) + "'"@,
                            Some(ts[pcur]),
                        ));
                    }
                    all_errors.push(err);
                    p = p + 1;
                    proof {
                        assert(all_errors.deep_view() =~= e_acc.push(err@));
                        assert(e_acc + (seq![err@] + spec_parse_loop(ts, p as int).1) =~=
                            e_acc.push(err@) + spec_parse_loop(ts, p as int).1);
                    }
                },
            }
        }
        if all_errors.is_empty() {
            MorphResult::Success(packets)
        } else {
            MorphResult::Errors(all_errors)
        }
    }
}

} // verus!
