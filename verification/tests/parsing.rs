use morph::error::MorphResult;
use morph::lexer::SimpleLexer;
use morph::parser::AstParser;
use morph::parser::Packet;
use morph::parser::SimpleParser;
use morph::token::FieldType;
use morph::token::Token;

fn lex(text: &str) -> Vec<Token> {
    let lines: Vec<Result<String, String>> = text.lines().map(|l| Ok(l.to_string())).collect();
    match SimpleLexer.tokenize(&lines) {
        MorphResult::Success(tokens) => tokens,
        MorphResult::Errors(_) => panic!("lexing failed"),
    }
}

fn parse_ok(text: &str) -> Vec<Packet> {
    match SimpleParser.parse(&lex(text)) {
        MorphResult::Success(packets) => packets,
        MorphResult::Errors(errors) => {
            let rendered: Vec<String> = errors.iter().map(|e| e.message()).collect();
            panic!("parsing failed: {}", rendered.join("; "));
        }
    }
}

fn parse_err(text: &str) -> Vec<String> {
    match SimpleParser.parse(&lex(text)) {
        MorphResult::Success(_) => panic!("expected parse errors"),
        MorphResult::Errors(errors) => errors.iter().map(|e| e.message()).collect(),
    }
}

#[test]
fn parses_a_well_formed_packet() {
    let packets = parse_ok("packet Foo { id = 3 fields { int x string y } }");
    assert_eq!(packets.len(), 1);
    let p = &packets[0];
    assert_eq!(p.name.as_str(), "Foo");
    assert_eq!(p.id, 3);
    assert!(!p.is_auto);
    assert_eq!(p.fields.len(), 2);
    assert_eq!(p.fields[0].name.as_str(), "x");
    assert_eq!(p.fields[0].typ, FieldType::I32);
    assert_eq!(p.fields[1].name.as_str(), "y");
    assert_eq!(p.fields[1].typ, FieldType::Str);
}

#[test]
fn parses_an_automatic_id() {
    let packets = parse_ok("packet Foo { id = auto }");
    assert_eq!(packets.len(), 1);
    assert!(packets[0].is_auto);
    assert_eq!(packets[0].id, -1);
    assert_eq!(packets[0].fields.len(), 0);
}

#[test]
fn rejects_nested_arrays() {
    let messages = parse_err("packet Foo { id = 1 fields { array array int xs } }");
    assert!(messages
        .iter()
        .any(|m| m.contains("Nested arrays are not allowed")));
}

#[test]
fn parses_an_empty_fields_block() {
    let packets = parse_ok("packet Foo { id = 1 fields { } }");
    assert_eq!(packets.len(), 1);
    assert_eq!(packets[0].fields.len(), 0);
}

#[test]
fn parses_array_fields() {
    let packets = parse_ok("packet Foo { id = 1 fields { array int xs array Bar ys } }");
    let p = &packets[0];
    assert_eq!(p.fields.len(), 2);
    assert_eq!(p.fields[0].typ, FieldType::Array(Box::new(FieldType::I32)));
    assert_eq!(p.fields[0].name.as_str(), "xs");
    assert_eq!(
        p.fields[1].typ,
        FieldType::Array(Box::new(FieldType::Nested("Bar".to_string())))
    );
    assert_eq!(p.fields[1].name.as_str(), "ys");
}

#[test]
fn parses_nested_type_fields() {
    let packets = parse_ok("packet Foo { id = 1 fields { Bar b } }");
    assert_eq!(
        packets[0].fields[0].typ,
        FieldType::Nested("Bar".to_string())
    );
    assert_eq!(packets[0].fields[0].name.as_str(), "b");
}

#[test]
fn parses_several_packets_in_order() {
    let packets = parse_ok("packet A { id = 1 }\npacket B { id = 2 }");
    assert_eq!(packets.len(), 2);
    assert_eq!(packets[0].name.as_str(), "A");
    assert_eq!(packets[1].name.as_str(), "B");
}

#[test]
fn reports_the_end_of_tokens() {
    let messages = parse_err("packet Foo {");
    assert!(messages.iter().any(|m| m.contains("Unexpected end of tokens")));
}

#[test]
fn reports_a_stray_leading_token() {
    let messages = parse_err("fields packet Foo { id = 1 }");
    assert!(messages
        .iter()
        .any(|m| m.contains("Expected keyword 'packet', but got keyword 'fields'")));
}

#[test]
fn collects_every_error_of_a_packet() {
    // a malformed id does not stop the parser from also reporting the
    // missing closing brace
    let messages = parse_err("packet Foo { id = oops");
    assert!(messages.iter().any(|m| m.contains("Expected i32 number")));
    assert!(messages
        .iter()
        .any(|m| m.contains("Unexpected end of tokens")));
}

#[test]
fn resynchronizes_after_a_bad_field() {
    // the bad declaration is reported; parsing goes on and the errors keep
    // the fields of the packet from being produced
    let messages = parse_err("packet Foo { id = 1 fields { array array int xs int y } }");
    assert_eq!(
        messages
            .iter()
            .filter(|m| m.contains("Nested arrays are not allowed"))
            .count(),
        1
    );
}

#[test]
fn locates_errors_by_line_and_column() {
    let messages = parse_err("packet Foo { id = oops }");
    assert!(messages
        .iter()
        .any(|m| m.contains("at line 1 column 18")));
}

#[test]
fn parsing_twice_yields_identical_packets() {
    let text = "packet A { id = 1 fields { int x } }\npacket B { id = auto }";
    let first = parse_ok(text);
    let second = parse_ok(text);
    assert_eq!(first, second);
}
