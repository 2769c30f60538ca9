use morph::error::MorphError;
use morph::error::MorphResult;
use morph::lexer::SimpleLexer;
use morph::text::capitalize;
use morph::text::i32_to_string;
use morph::text::str_eq;
use morph::text::str_lt;
use morph::text::u64_to_string;
use morph::token::as_token_kind;
use morph::token::parse_i32;
use morph::token::token_kind_to_string;
use morph::token::FieldType;
use morph::token::KeywordKind;
use morph::token::OperatorKind;
use morph::token::Token;
use morph::token::TokenKind;

fn ok_lines(text: &str) -> Vec<Result<String, String>> {
    text.lines().map(|l| Ok(l.to_string())).collect()
}

fn lex(text: &str) -> Vec<Token> {
    match SimpleLexer.tokenize(&ok_lines(text)) {
        MorphResult::Success(tokens) => tokens,
        MorphResult::Errors(_) => panic!("lexing failed"),
    }
}

#[test]
fn renders_integers_in_decimal() {
    assert_eq!(u64_to_string(0).as_str(), "0");
    assert_eq!(u64_to_string(90102).as_str(), "90102");
    assert_eq!(i32_to_string(7).as_str(), "7");
    assert_eq!(i32_to_string(-42).as_str(), "-42");
    assert_eq!(i32_to_string(-2147483648).as_str(), "-2147483648");
    assert_eq!(i32_to_string(2147483647).as_str(), "2147483647");
}

#[test]
fn capitalizes_first_character() {
    assert_eq!(capitalize("hello").as_str(), "Hello");
    assert_eq!(capitalize("Hello").as_str(), "Hello");
    assert_eq!(capitalize("").as_str(), "");
    assert_eq!(capitalize("x").as_str(), "X");
}

#[test]
fn compares_strings() {
    assert!(str_eq("packet", "packet"));
    assert!(!str_eq("packet", "packets"));
    assert!(str_lt("Alpha", "Beta"));
    assert!(str_lt("A", "AB"));
    assert!(!str_lt("B", "B"));
    assert!(!str_lt("C", "B"));
}

#[test]
fn classifies_keywords_and_operators() {
    assert_eq!(
        as_token_kind("packet"),
        Some(TokenKind::Keyword(KeywordKind::Packet))
    );
    assert_eq!(
        as_token_kind("id"),
        Some(TokenKind::Keyword(KeywordKind::Identifier))
    );
    assert_eq!(
        as_token_kind("auto"),
        Some(TokenKind::Keyword(KeywordKind::Auto))
    );
    assert_eq!(
        as_token_kind("fields"),
        Some(TokenKind::Keyword(KeywordKind::Fields))
    );
    assert_eq!(
        as_token_kind("array"),
        Some(TokenKind::Keyword(KeywordKind::Array))
    );
    assert_eq!(
        as_token_kind("="),
        Some(TokenKind::Operator(OperatorKind::Equals))
    );
    assert_eq!(as_token_kind("{"), Some(TokenKind::BraceOpen));
    assert_eq!(as_token_kind("}"), Some(TokenKind::BraceClose));
}

#[test]
fn classifies_every_type_spelling_and_alias() {
    let cases: Vec<(&str, FieldType)> = vec![
        ("bool", FieldType::Bool),
        ("boolean", FieldType::Bool),
        ("i8", FieldType::I8),
        ("byte", FieldType::I8),
        ("i16", FieldType::I16),
        ("short", FieldType::I16),
        ("i32", FieldType::I32),
        ("int", FieldType::I32),
        ("i64", FieldType::I64),
        ("long", FieldType::I64),
        ("u8", FieldType::U8),
        ("ubyte", FieldType::U8),
        ("u16", FieldType::U16),
        ("ushort", FieldType::U16),
        ("u32", FieldType::U32),
        ("uint", FieldType::U32),
        ("u64", FieldType::U64),
        ("ulong", FieldType::U64),
        ("f32", FieldType::F32),
        ("float", FieldType::F32),
        ("f64", FieldType::F64),
        ("double", FieldType::F64),
        ("char", FieldType::Char),
        ("string", FieldType::Str),
        ("str", FieldType::Str),
    ];
    for (word, expected) in cases {
        assert_eq!(
            as_token_kind(word),
            Some(TokenKind::Keyword(KeywordKind::FieldDefinition(expected))),
            "word {word}"
        );
    }
}

#[test]
fn classifies_numbers_and_qualifiers() {
    assert_eq!(as_token_kind("123"), Some(TokenKind::Number(123)));
    assert_eq!(as_token_kind("-5"), Some(TokenKind::Number(-5)));
    assert_eq!(as_token_kind("+7"), Some(TokenKind::Number(7)));
    assert_eq!(
        as_token_kind("2147483647"),
        Some(TokenKind::Number(2147483647))
    );
    assert_eq!(
        as_token_kind("-2147483648"),
        Some(TokenKind::Number(-2147483648))
    );
    // out of range or malformed: always a qualifier, never an error
    assert_eq!(
        as_token_kind("2147483648"),
        Some(TokenKind::Qualifier("2147483648".to_string()))
    );
    assert_eq!(
        as_token_kind("Foo"),
        Some(TokenKind::Qualifier("Foo".to_string()))
    );
    assert_eq!(
        as_token_kind("x9"),
        Some(TokenKind::Qualifier("x9".to_string()))
    );
    assert_eq!(
        as_token_kind("1_000"),
        Some(TokenKind::Qualifier("1_000".to_string()))
    );
}

#[test]
fn parses_signed_decimal_integers() {
    assert_eq!(parse_i32("0"), Some(0));
    assert_eq!(parse_i32("007"), Some(7));
    assert_eq!(parse_i32("-0"), Some(0));
    assert_eq!(parse_i32(""), None);
    assert_eq!(parse_i32("-"), None);
    assert_eq!(parse_i32("+"), None);
    assert_eq!(parse_i32("12a"), None);
    assert_eq!(parse_i32("99999999999999999999"), None);
    assert_eq!(parse_i32("-2147483649"), None);
}

#[test]
fn splits_specials_without_spaces() {
    let tokens = lex("id=0");
    assert_eq!(tokens.len(), 3);
    assert_eq!(tokens[0].kind, TokenKind::Keyword(KeywordKind::Identifier));
    assert_eq!(tokens[0].column, 0);
    assert_eq!(tokens[1].kind, TokenKind::Operator(OperatorKind::Equals));
    assert_eq!(tokens[1].column, 2);
    assert_eq!(tokens[2].kind, TokenKind::Number(0));
    assert_eq!(tokens[2].column, 3);
    assert_eq!(tokens[0].line, 1);
}

#[test]
fn numbers_lines_from_one_and_columns_from_zero() {
    let tokens = lex("packet Foo\n{\n}");
    assert_eq!(tokens.len(), 4);
    assert_eq!(tokens[0].line, 1);
    assert_eq!(tokens[0].column, 0);
    assert_eq!(tokens[1].line, 1);
    assert_eq!(tokens[1].column, 7);
    assert_eq!(tokens[2].line, 2);
    assert_eq!(tokens[3].line, 3);
}

#[test]
fn tokenizing_twice_yields_identical_sequences() {
    let text = "packet Foo { id = 3 fields { int x string y } }";
    let first = lex(text);
    let second = lex(text);
    assert_eq!(first, second);
}

#[test]
fn keeps_every_token_of_every_readable_line() {
    let tokens = lex("packet A\npacket B");
    assert_eq!(tokens.len(), 4);
    assert_eq!(tokens[0].kind, TokenKind::Keyword(KeywordKind::Packet));
    assert_eq!(
        tokens[1].kind,
        TokenKind::Qualifier("A".to_string())
    );
    assert_eq!(tokens[2].kind, TokenKind::Keyword(KeywordKind::Packet));
    assert_eq!(
        tokens[3].kind,
        TokenKind::Qualifier("B".to_string())
    );
}

#[test]
fn accumulates_one_read_error_per_failed_line() {
    let lines: Vec<Result<String, String>> = vec![
        Ok("packet A".to_string()),
        Err("disk trouble".to_string()),
        Ok("packet B".to_string()),
        Ok("packet C".to_string()),
        Err("more trouble".to_string()),
    ];
    match SimpleLexer.tokenize(&lines) {
        MorphResult::Success(_) => panic!("expected errors"),
        MorphResult::Errors(errors) => {
            assert_eq!(errors.len(), 2);
            let first = errors[0].message();
            let second = errors[1].message();
            assert!(first.contains("Failed to read line 2"));
            assert!(first.contains("disk trouble"));
            assert!(second.contains("Failed to read line 5"));
            assert!(second.contains("more trouble"));
            assert!(matches!(errors[0], MorphError::Read(_)));
        }
    }
}

#[test]
fn renders_token_kinds_for_diagnostics() {
    assert_eq!(
        token_kind_to_string(&TokenKind::Keyword(KeywordKind::Packet)).as_str(),
        "packet"
    );
    assert_eq!(
        token_kind_to_string(&TokenKind::Number(-3)).as_str(),
        "-3"
    );
    assert_eq!(
        token_kind_to_string(&TokenKind::Keyword(KeywordKind::FieldDefinition(
            FieldType::Array(Box::new(FieldType::I32))
        )))
        .as_str(),
        "array[i32]"
    );
    assert_eq!(token_kind_to_string(&TokenKind::BraceOpen).as_str(), "{");
}
