//! The error taxonomy of the front end: one struct per error kind, a closed
//! sum type over them, and the result type that every stage returns.  Each
//! kind renders to a uniform message for reporting.

use vstd::prelude::*;
use vstd::string::StringExecFns;

use crate::text::spec_nat_digits;
use crate::text::usize_to_string;
use crate::token::Token;
use crate::token::TokenView;

verus! {

/// Failure to read a line of input.
#[derive(Debug)]
pub struct ReadError {
    pub message: String,
}

/// A word the lexer could not classify, located by line and column.
#[derive(Debug)]
pub struct LexerError {
    pub message: String,
    pub line: usize,
    pub column: usize,
}

/// A grammar violation, carrying the offending token when one exists, or
/// nothing when the input ended early.
#[derive(Debug)]
pub struct ParserError {
    pub message: String,
    pub token: Option<Token>,
}

/// A violation of a semantic rule over the parsed packet list.
#[derive(Debug)]
pub struct SemanticError {
    pub message: String,
}

/// A missing type reference or an unsatisfiable emission order.
#[derive(Debug)]
pub struct DependencyResolvingError {
    pub message: String,
}

/// The model of a `ReadError`.
pub struct ReadErrorView {
    pub message: Seq<char>,
}

/// The model of a `LexerError`.
pub struct LexerErrorView {
    pub message: Seq<char>,
    pub line: int,
    pub column: int,
}

/// The model of a `ParserError`.
pub struct ParserErrorView {
    pub message: Seq<char>,
    pub token: Option<TokenView>,
}

/// The model of a `SemanticError`.
pub struct SemanticErrorView {
    pub message: Seq<char>,
}

/// The model of a `DependencyResolvingError`.
pub struct DependencyResolvingErrorView {
    pub message: Seq<char>,
}

impl View for ReadError {
    type V = ReadErrorView;

    open spec fn view(&self) -> ReadErrorView {
        ReadErrorView { message: self.message@ }
    }
}

impl View for LexerError {
    type V = LexerErrorView;

    open spec fn view(&self) -> LexerErrorView {
        LexerErrorView {
            message: self.message@,
            line: self.line as int,
            column: self.column as int,
        }
    }
}

impl View for ParserError {
    type V = ParserErrorView;

    open spec fn view(&self) -> ParserErrorView {
        ParserErrorView { message: self.message@, token: self.token.deep_view() }
    }
}

impl View for SemanticError {
    type V = SemanticErrorView;

    open spec fn view(&self) -> SemanticErrorView {
        SemanticErrorView { message: self.message@ }
    }
}

impl View for DependencyResolvingError {
    type V = DependencyResolvingErrorView;

    open spec fn view(&self) -> DependencyResolvingErrorView {
        DependencyResolvingErrorView { message: self.message@ }
    }
}

/// The closed sum of every error kind the front end can report.
#[derive(Debug)]
pub enum MorphError {
    Read(ReadError),
    Lexer(LexerError),
    Parser(ParserError),
    Semantic(SemanticError),
    DependencyResolving(DependencyResolvingError),
}

/// The model of a `MorphError`.
pub enum MorphErrorView {
    Read(ReadErrorView),
    Lexer(LexerErrorView),
    Parser(ParserErrorView),
    Semantic(SemanticErrorView),
    DependencyResolving(DependencyResolvingErrorView),
}

impl View for MorphError {
    type V = MorphErrorView;

    open spec fn view(&self) -> MorphErrorView {
        match self {
            MorphError::Read(e) => MorphErrorView::Read(e@),
            MorphError::Lexer(e) => MorphErrorView::Lexer(e@),
            MorphError::Parser(e) => MorphErrorView::Parser(e@),
            MorphError::Semantic(e) => MorphErrorView::Semantic(e@),
            MorphError::DependencyResolving(e) => MorphErrorView::DependencyResolving(e@),
        }
    }
}

impl DeepView for MorphError {
    type V = MorphErrorView;

    open spec fn deep_view(&self) -> MorphErrorView {
        self.view()
    }
}

/// What a stage returns: its value, or every error it accumulated.
pub enum MorphResult<T> {
    Success(T),
    Errors(Vec<MorphError>),
}

/// The model of a `MorphResult`.
pub enum MorphResultView<U> {
    Success(U),
    Errors(Seq<MorphErrorView>),
}

impl<T: DeepView> View for MorphResult<T> {
    type V = MorphResultView<T::V>;

    open spec fn view(&self) -> MorphResultView<T::V> {
        match self {
            MorphResult::Success(t) => MorphResultView::Success(t.deep_view()),
            MorphResult::Errors(es) => MorphResultView::Errors(es.deep_view()),
        }
    }
}

impl<T: DeepView> DeepView for MorphResult<T> {
    type V = MorphResultView<T::V>;

    open spec fn deep_view(&self) -> MorphResultView<T::V> {
        self.view()
    }
}

/// The rendered message of a read error.
pub open spec fn spec_read_error_message(e: ReadErrorView) -> Seq<char> {
    "ReadError: "@ + e.message
}

/// The rendered message of a lexer error.
pub open spec fn spec_lexer_error_message(e: LexerErrorView) -> Seq<char> {
    "LexerError at line "@ + spec_nat_digits(e.line as nat) + " column "@ + spec_nat_digits(
        e.column as nat,
    ) + ": "@ + e.message
}

/// The rendered message of a parser error: located when it carries a token,
/// bare when the input ended early.
pub open spec fn spec_parser_error_message(e: ParserErrorView) -> Seq<char> {
    match e.token {
        Some(t) => "ParserError at line "@ + spec_nat_digits(t.line as nat) + " column "@
            + spec_nat_digits(t.column as nat) + ": "@ + e.message,
        None => "ParserError: "@ + e.message,
    }
}

/// The rendered message of a semantic error.
pub open spec fn spec_semantic_error_message(e: SemanticErrorView) -> Seq<char> {
    "SemanticError: "@ + e.message
}

/// The rendered message of a dependency resolving error.
pub open spec fn spec_dependency_error_message(e: DependencyResolvingErrorView) -> Seq<char> {
    "DependencyResolvingError: "@ + e.message
}

/// The uniform rendered message of any front-end error.
pub open spec fn spec_error_message(e: MorphErrorView) -> Seq<char> {
    match e {
        MorphErrorView::Read(r) => spec_read_error_message(r),
        MorphErrorView::Lexer(l) => spec_lexer_error_message(l),
        MorphErrorView::Parser(p) => spec_parser_error_message(p),
        MorphErrorView::Semantic(s) => spec_semantic_error_message(s),
        MorphErrorView::DependencyResolving(d) => spec_dependency_error_message(d),
    }
}

impl ReadError {
    /// Renders this error for reporting.
    pub fn message(&self) -> (r: String)
        ensures
            r@ == spec_read_error_message(self@),
    {
        let mut out = String::from_str("ReadError: ");
        out.append(self.message.as_str());
        out
    }
}

impl LexerError {
    /// Renders this error for reporting.
    pub fn message(&self) -> (r: String)
        ensures
            r@ == spec_lexer_error_message(self@),
    {
        let mut out = String::from_str("LexerError at line ");
        let line = usize_to_string(self.line);
        out.append(line.as_str());
        out.append(" column ");
        let column = usize_to_string(self.column);
        out.append(column.as_str());
        out.append(": ");
        out.append(self.message.as_str());
        proof {
            assert(out@ =~= spec_lexer_error_message(self@));
        }
        out
    }
}

impl ParserError {
    /// Renders this error for reporting.
    pub fn message(&self) -> (r: String)
        ensures
            r@ == spec_parser_error_message(self@),
    {
        match &self.token {
            Some(token) => {
                let mut out = String::from_str("ParserError at line ");
                let line = usize_to_string(token.line);
                out.append(line.as_str());
                out.append(" column ");
                let column = usize_to_string(token.column);
                out.append(column.as_str());
                out.append(": ");
                out.append(self.message.as_str());
                proof {
                    assert(out@ =~= spec_parser_error_message(self@));
                }
                out
            },
            None => {
                let mut out = String::from_str("ParserError: ");
                out.append(self.message.as_str());
                out
            },
        }
    }
}

impl SemanticError {
    /// Renders this error for reporting.
    pub fn message(&self) -> (r: String)
        ensures
            r@ == spec_semantic_error_message(self@),
    {
        let mut out = String::from_str("SemanticError: ");
        out.append(self.message.as_str());
        out
    }
}

impl DependencyResolvingError {
    /// Renders this error for reporting.
    pub fn message(&self) -> (r: String)
        ensures
            r@ == spec_dependency_error_message(self@),
    {
        let mut out = String::from_str("DependencyResolvingError: ");
        out.append(self.message.as_str());
        out
    }
}

impl MorphError {
    /// Renders any front-end error for reporting.
    pub fn message(&self) -> (r: String)
        ensures
            r@ == spec_error_message(self@),
    {
        match self {
            MorphError::Read(e) => e.message(),
            MorphError::Lexer(e) => e.message(),
            MorphError::Parser(e) => e.message(),
            MorphError::Semantic(e) => e.message(),
            MorphError::DependencyResolving(e) => e.message(),
        }
    }
}

} // verus!
